//! A dependency graph over the public functions of a crate, and the search
//! for call sequences through it that fuzz targets are generated from.
//!
//! Each function is a node. An edge (a dependency) runs from a function
//! whose return value can be handed to a parameter of another function.
//! Sequences of calls are grown through the graph (breadth-first, by
//! random walk, backwards from unreached functions, or from a corpus of
//! sequences seen in real code), and a covering subset of them is then
//! selected.


pub mod corpus;
pub mod cover;
pub mod deps;
pub mod generate;
pub mod graph;
pub mod model;
pub mod realworld;
pub mod reverse;
pub mod rng;
pub mod satisfy;
pub mod select;
pub mod sequence;
pub mod traverse;
pub mod util;
