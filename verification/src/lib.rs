//! A reverse-mode automatic-differentiation engine.
//!
//! Arithmetic expressions build an immutable directed acyclic computation
//! graph held in an arena ([`node::Graph`]); a single backward traversal then
//! accumulates the gradient of one output with respect to every leaf input
//! ([`node::Node::auto_grad`]).
//!
//! The engine never computes with scalars itself: the scalar type and its
//! evaluators come from the embedding code through the [`scalar::Scalar`]
//! trait, so everything proved here holds for any scalar implementation.

pub mod backward;
pub mod basic_fn;
pub mod laws;
pub mod node;
pub mod scalar;

pub use basic_fn::{BasicFn, FnInput, FnKind};
pub use node::{Graph, Node, NodeGradPair};
pub use scalar::{ArgList, Scalar};
