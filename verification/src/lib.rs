//! Lowers a tensor dataflow graph into a graph of scalar operations.
//!
//! A [`graph::Graph`] holds operation nodes joined by data edges, each edge with the
//! [`shape::ShapeTracker`] through which the consumer sees the producer's storage.
//! [`scalar::scalar`] checks such a graph and rewrites it so that every node stands for
//! one scalar and every edge carries one scalar; the [`scalar::InputsTracker`] it hands
//! back says which scalar nodes stand for the inputs and constants of the tensor graph.

pub mod bulk;
pub mod error;
pub mod expand;
pub mod graph;
pub mod laws;
pub mod op;
pub mod scalar;
pub mod shape;
pub mod snapshot;
pub mod validate;
