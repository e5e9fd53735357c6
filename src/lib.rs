//! Colours a small grid under random adjacency rules by wave-function-collapse
//! propagation: cells as option bitsets, an engine that collapses and
//! eliminates, a resolver that turns rules into eliminations, and a generator
//! that samples colours and rules and retries on contradiction.

pub mod collapses;
pub mod image;
pub mod random;
pub mod wfc;
