//! Graph algorithms used by the layout engine.
pub mod low_link;
pub mod make_biconnected;
pub mod separation;
pub mod shortest_path;
