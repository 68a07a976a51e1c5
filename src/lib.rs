//! Wave Function Collapse over arbitrary graphs: weighted label domains,
//! adjacency rules learned from an exemplar, and a collapse engine driven by
//! constraint propagation and entropy-ordered random choices.

pub mod domain;
pub mod rules;
pub mod graph;
pub mod entropy;
pub mod state;
pub mod vertex_set;
pub mod collapse;
pub mod random;
pub mod overlap;
pub mod matrix;
pub mod sound;
