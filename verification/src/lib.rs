//! Incremental propagation core of a reactive relational engine.
//!
//! A [`flow::Flow`] is a static graph of nodes in topological order, each
//! owning a [`relation::Relation`]. Row changes enter at base tables
//! ([`flow::Flow::change`]), are swept once through the dependent nodes in
//! index order ([`flow::Flow::propagate`]), and are recorded in a log that a
//! consumer drains ([`flow::Flow::take_changes`]) or bypasses with a full
//! snapshot ([`flow::Flow::as_changes`]).
//!
//! Every operation is stated over the model in [`model`]; [`laws`] holds what
//! follows for all flows and inputs.

pub mod value;
pub mod relation;
pub mod node;
pub mod error;
pub mod model;
pub mod laws;
pub mod flow;
