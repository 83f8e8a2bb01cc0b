//! Structure of a scalar reverse-mode differentiation graph.
//!
//! Nodes live in an arena and are named by their index. A derived node
//! records the operator that produced it and the indices of its operands,
//! which are always older nodes, so the graph is acyclic by construction.
//! The numeric side (forward values, gradients, the local derivative of each
//! operator) is carried alongside by the caller, indexed the same way; this
//! crate decides which nodes exist, how they are linked, and in which order
//! the backward pass visits them.

pub mod graph;
pub mod nn;
pub mod order;
