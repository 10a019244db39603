//! Intersection of e-graphs.
//!
//! An e-graph represents many terms at once and holds some of them equal;
//! it is congruence-closed once it has been rebuilt. The intersection of two
//! such graphs is the graph that represents the terms which both represent
//! and holds equal the terms which both hold equal.
//!
//! - `node`: e-nodes and e-classes as plain data.
//! - `store`: the graph itself, kept by `egg`, with the operations `add`,
//!   `find`, `union`, `rebuild`, `lookup` and `classes`.
//! - `model`: a graph as mathematical values, and what each operation does
//!   to it.
//! - `terms`: the terms that a graph represents and holds equal.
//! - `product`: the substitutions of a node, drawn from sets of ids.
//! - `engine`: the intersection.
//! - `laws`: what follows for intersections.

pub mod engine;
pub mod laws;
pub mod model;
pub mod node;
pub mod product;
pub mod store;
pub mod terms;

mod counting;
mod growth;
mod link;
mod moves;
mod progress;
mod steps;
