//! Seiren: entity-relationship diagrams described in a small text language,
//! laid out on a plane and drawn as SVG.
//!
//! This crate holds the verified core: colors, the integer grid graph, the
//! diagram model, its text syntax, the intermediate document, the graph
//! algorithms used for routing, and the decisions of the renderer.
use vstd::prelude::*;

pub mod algorithm;
pub mod color;
pub mod erd;
pub mod geometry;
pub mod mir;
pub mod parser;
pub mod render;
pub mod grid;
pub mod layout;
pub mod text;

verus! {

} // verus!
