//! The discrete core of a self-organizing map: a rectangular lattice of
//! nodes, the search for the best-matching unit, and the training step that
//! replaces the nodes of a neighbourhood and advances the iteration counter.
//!
//! The library never looks inside a node. What depends on the numbers a node
//! holds reaches it as plain values: a grid of integer distance keys, one per
//! cell, and a grid of the nodes that a step would put in place.
pub mod bmu;
pub mod grid;
pub mod som;
