//! A scalar-valued reverse-mode automatic differentiation engine.
//!
//! Arithmetic on [`Value`] handles records a computation graph in a [`Graph`];
//! [`Value::backward`] then gives every node the gradient of one final value
//! with respect to it. [`LinearLayer`] builds a fully-connected layer from the
//! same operations.

pub mod backward;
pub mod chain_rule;
pub mod data;
pub mod graph;
pub mod network;
pub mod order;
pub mod scalar;
pub mod schedule;
pub mod value;
pub mod walk;

pub use graph::Graph;
pub use network::LinearLayer;
pub use walk::build_topo;
pub use scalar::Scalar;
pub use value::Value;
