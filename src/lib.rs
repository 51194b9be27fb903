//! Constraint-based causal discovery (the PC search) over a directed graph
//! stored in petgraph. The caller supplies the conditional-independence test
//! as an oracle; the search itself (skeleton learning, collider orientation,
//! propagation of directions) is verified against the model in `model`.
pub mod combinations;
pub mod dag;
pub mod error;
pub mod laws;
pub mod model;
pub mod pc;
