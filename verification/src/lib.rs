//! Reverse-mode automatic differentiation over scalar expressions.
//!
//! Expressions are recorded in a [`Graph`], an arena of nodes addressed by
//! [`Value`] handles. Scalars are 64-bit integers under wrapping arithmetic,
//! so every operation is total and the gradient rules are exact identities
//! of the ring of integers modulo 2^64.
//!
//! A handle is meaningful only together with the graph that issued it.
pub mod derivative;
pub mod gradient;
pub mod graph;
pub mod laws;
pub mod order;
pub mod scalar;

pub use graph::Graph;
pub use graph::Node;
pub use graph::Operation;
pub use graph::Value;
