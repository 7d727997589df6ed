//! The vertices of the graph.

use vstd::prelude::*;
use crate::value::{Id, IdView};

verus! {

/// The kind of a base node: an externally mutable relation.
#[derive(Clone, Copy, Debug, PartialEq, Eq, Structural)]
pub struct Table;

/// The kinds of computed nodes. All share one transform contract: from the
/// node's prior state and the deltas of its upstream nodes to its own delta.
#[derive(Clone, Copy, Debug, PartialEq, Eq, Structural)]
pub enum Derived {
    Join,
    Union,
    Aggregate,
}

/// What a node holds: a base table, or a relation computed from upstream.
#[derive(Clone, Copy, Debug, PartialEq, Eq, Structural)]
pub enum ViewKind {
    /// Mutated only by ingestion.
    Table(Table),
    /// Mutated only by propagation.
    Derived(Derived),
}

/// One vertex: its name, its kind, and its edges as node indices.
#[derive(Clone, Debug)]
pub struct Node {
    pub id: Id,
    pub view: ViewKind,
    pub upstream: Vec<usize>,
    pub downstream: Vec<usize>,
}

/// The model of a [`Node`].
pub struct NodeView {
    pub id: IdView,
    pub view: ViewKind,
    pub upstream: Seq<usize>,
    pub downstream: Seq<usize>,
}

impl DeepView for Node {
    type V = NodeView;

    open spec fn deep_view(&self) -> NodeView {
        NodeView {
            id: self.id@,
            view: self.view,
            upstream: self.upstream@,
            downstream: self.downstream@,
        }
    }
}

impl NodeView {
    /// A base node without edges.
    pub open spec fn table(id: IdView) -> NodeView {
        NodeView {
            id,
            view: ViewKind::Table(Table),
            upstream: Seq::empty(),
            downstream: Seq::empty(),
        }
    }
}

} // verus!
