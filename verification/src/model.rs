//! The mathematical model of a flow: what every operation does, stated on
//! sequences.

use vstd::prelude::*;
use crate::error::FlowError;
use crate::node::{Derived, NodeView, ViewKind};
use crate::relation::{ChangesView, RelationView, apply_all, as_inserts};
use crate::value::{IdView, RowView};

verus! {

/// The model of one entry of a batch or of the log: a node's name and a delta.
pub type EntryView = (IdView, ChangesView);

/// The model of one entry of a schema: a name, the unique columns, the others.
pub type SchemaEntryView = (IdView, Seq<IdView>, Seq<IdView>);

/// `ix` is the first of `nodes` that is named `id`.
pub open spec fn first_named(nodes: Seq<NodeView>, id: IdView, ix: int) -> bool {
    &&& 0 <= ix < nodes.len()
    &&& nodes[ix].id == id
    &&& forall|j: int| 0 <= j < ix ==> (#[trigger] nodes[j]).id != id
}

/// The index that `id` resolves to among `nodes`: that of the first node of
/// this name.
pub open spec fn lookup(nodes: Seq<NodeView>, id: IdView) -> Option<int> {
    if exists|ix: int| first_named(nodes, id, ix) {
        Some(choose|ix: int| first_named(nodes, id, ix))
    } else {
        None
    }
}

/// Node `j` is one of `targets`.
pub open spec fn hits(targets: Seq<usize>, j: int) -> bool {
    exists|k: int| 0 <= k < targets.len() && #[trigger] targets[k] == j
}

/// The operations that a batch addresses to node `ix`, in order: the deltas
/// of the entries whose name resolves to `ix`, joined.
pub open spec fn addressed(nodes: Seq<NodeView>, batch: Seq<EntryView>, ix: int) -> ChangesView
    decreases batch.len(),
{
    if batch.len() == 0 {
        Seq::empty()
    } else if lookup(nodes, batch.last().0) == Some(ix) {
        addressed(nodes, batch.drop_last(), ix) + batch.last().1
    } else {
        addressed(nodes, batch.drop_last(), ix)
    }
}

/// The model of a flow.
pub struct FlowView {
    /// The nodes, in topological order.
    pub nodes: Seq<NodeView>,
    /// One relation per node.
    pub outputs: Seq<RelationView>,
    /// The pending log, oldest entry first.
    pub changes: Seq<EntryView>,
    /// One bit per node: set while the node has unpropagated input.
    pub dirty: Seq<bool>,
    /// Per node, the delta that its relation took in since the last sweep ended.
    pub deltas: Seq<ChangesView>,
}

impl FlowView {
    /// The flow that a schema gives: one empty base table per entry, in order.
    pub open spec fn initial(schema: Seq<SchemaEntryView>) -> FlowView {
        FlowView {
            nodes: Seq::new(schema.len(), |i: int| NodeView::table(schema[i].0)),
            outputs: Seq::new(
                schema.len(),
                |i: int| RelationView { fields: schema[i].1 + schema[i].2, rows: Seq::empty() },
            ),
            changes: Seq::empty(),
            dirty: Seq::new(schema.len(), |i: int| false),
            deltas: Seq::new(schema.len(), |i: int| Seq::empty()),
        }
    }

    /// The structural invariant: the nodes can be indexed by a machine word;
    /// there is one relation, one dirty bit and one delta per node; no
    /// relation holds a row twice; every upstream index is smaller than its
    /// owner's and every downstream index larger; edges are mirrored.
    pub open spec fn wf(self) -> bool {
        let n = self.nodes.len();
        &&& n <= usize::MAX
        &&& self.outputs.len() == n
        &&& self.dirty.len() == n
        &&& self.deltas.len() == n
        &&& forall|i: int| 0 <= i < n ==> (#[trigger] self.outputs[i]).rows.no_duplicates()
        &&& forall|i: int, k: int|
            0 <= i < n && 0 <= k < self.nodes[i].upstream.len() ==> (
            #[trigger] self.nodes[i].upstream[k]) < i
        &&& forall|u: int, k: int|
            0 <= u < n && 0 <= k < self.nodes[u].downstream.len() ==> u < (
            #[trigger] self.nodes[u].downstream[k]) < n
        &&& forall|u: usize, i: usize|
            #![trigger self.nodes[u as int].downstream.contains(i)]
            #![trigger self.nodes[i as int].upstream.contains(u)]
            u < n && i < n ==> (self.nodes[u as int].downstream.contains(i)
                <==> self.nodes[i as int].upstream.contains(u))
    }

    /// No two nodes share a name.
    pub open spec fn unique_ids(self) -> bool {
        forall|i: int, j: int|
            0 <= i < j < self.nodes.len() ==> (#[trigger] self.nodes[i]).id != (
            #[trigger] self.nodes[j]).id
    }

    /// The index that `id` resolves to: that of the first node of this name.
    pub open spec fn lookup(self, id: IdView) -> Option<int> {
        lookup(self.nodes, id)
    }

    /// Why an entry addressed to `id` is refused, if it is.
    pub open spec fn entry_error(self, id: IdView) -> Option<FlowError> {
        match self.lookup(id) {
            None => Some(FlowError::UnknownNode),
            Some(ix) => if self.nodes[ix].view is Table {
                None
            } else {
                Some(FlowError::InvalidTarget)
            },
        }
    }

    /// The fault of the first entry of `batch` that is refused, if any is.
    pub open spec fn batch_error(self, batch: Seq<EntryView>) -> Option<FlowError>
        decreases batch.len(),
    {
        if batch.len() == 0 {
            None
        } else {
            match self.batch_error(batch.drop_last()) {
                Some(e) => Some(e),
                None => self.entry_error(batch.last().0),
            }
        }
    }

    /// The flow after node `ix` took in `delta`: its relation changed, nothing
    /// else touched.
    pub open spec fn absorb(self, ix: int, delta: ChangesView) -> FlowView {
        FlowView {
            outputs: self.outputs.update(
                ix,
                RelationView {
                    fields: self.outputs[ix].fields,
                    rows: apply_all(self.outputs[ix].rows, delta),
                },
            ),
            ..self
        }
    }

    /// The flow after one accepted entry: the delta is applied to the base
    /// table, joined to what that node took in, the node is dirty, and the
    /// entry stands at the end of the log.
    pub open spec fn ingest_one(self, entry: EntryView) -> FlowView {
        let ix = self.lookup(entry.0).unwrap();
        FlowView {
            changes: self.changes.push(entry),
            dirty: self.dirty.update(ix, true),
            deltas: self.deltas.update(ix, self.deltas[ix] + entry.1),
            ..self.absorb(ix, entry.1)
        }
    }

    /// The flow after every entry of an accepted batch, first to last.
    pub open spec fn ingest(self, batch: Seq<EntryView>) -> FlowView
        decreases batch.len(),
    {
        if batch.len() == 0 {
            self
        } else {
            self.ingest(batch.drop_last()).ingest_one(batch.last())
        }
    }

    /// The full state: for every node, in order, its name and its rows as
    /// inserts.
    pub open spec fn snapshot(self) -> Seq<EntryView> {
        Seq::new(self.nodes.len(), |i: int| (self.nodes[i].id, as_inserts(self.outputs[i].rows)))
    }

    /// The flow with the log taken away.
    pub open spec fn drained(self) -> FlowView {
        FlowView { changes: Seq::empty(), ..self }
    }

    /// The dirty bits after every node of `targets` was marked.
    pub open spec fn marked(self, targets: Seq<usize>) -> Seq<bool> {
        Seq::new(self.dirty.len(), |j: int| self.dirty[j] || hits(targets, j))
    }

    /// Node `ix` is dirty and computed: the sweep needs its transform's delta.
    pub open spec fn awaits(self, ix: int) -> bool {
        &&& 0 <= ix < self.nodes.len()
        &&& self.dirty[ix]
        &&& self.nodes[ix].view is Derived
    }

    /// The flow after the sweep passed node `ix` without a transform: a clean
    /// node changes nothing; a dirty base table dirties its downstream nodes
    /// and becomes clean.
    pub open spec fn pass(self, ix: int) -> FlowView {
        if self.dirty[ix] && self.nodes[ix].view is Table {
            FlowView { dirty: self.marked(self.nodes[ix].downstream).update(ix, false), ..self }
        } else {
            self
        }
    }

    /// The flow after the dirty computed node `ix` took its transform's
    /// `delta`: the delta is applied and logged under the node's name, it
    /// becomes what the node took in, the node is clean, and its downstream
    /// nodes are dirtied unless the delta is empty.
    pub open spec fn settle(self, ix: int, delta: ChangesView) -> FlowView {
        let spread = if delta.len() == 0 {
            self.dirty
        } else {
            self.marked(self.nodes[ix].downstream)
        };
        FlowView {
            changes: self.changes.push((self.nodes[ix].id, delta)),
            dirty: spread.update(ix, false),
            deltas: self.deltas.update(ix, delta),
            ..self.absorb(ix, delta)
        }
    }

    /// The flow after a sweep ended: every node clean, nothing taken in.
    pub open spec fn finished(self) -> FlowView {
        FlowView {
            dirty: Seq::new(self.dirty.len(), |j: int| false),
            deltas: Seq::new(self.deltas.len(), |j: int| Seq::empty()),
            ..self
        }
    }

    /// The first node from `from` on that awaits its transform's delta when
    /// the sweep passes the nodes before it; `None` when the sweep reaches the
    /// end first.
    pub open spec fn next_awaiting(self, from: int) -> Option<int>
        decreases self.nodes.len() - from,
    {
        if from < 0 || from >= self.nodes.len() {
            None
        } else if self.awaits(from) {
            Some(from)
        } else {
            self.pass(from).next_awaiting(from + 1)
        }
    }

    /// The flow when the sweep, started at `from`, stops next: before the
    /// first node that awaits a delta, or finished at the end.
    pub open spec fn advance(self, from: int) -> FlowView
        decreases self.nodes.len() - from,
    {
        if from < 0 || from >= self.nodes.len() {
            self.finished()
        } else if self.awaits(from) {
            self
        } else {
            self.pass(from).advance(from + 1)
        }
    }

    /// Every node before `ix` is clean.
    pub open spec fn clean_below(self, ix: int) -> bool {
        forall|j: int| 0 <= j < ix && j < self.dirty.len() ==> !(#[trigger] self.dirty[j])
    }

    /// The flow with one more computed node, named `id`, reading from
    /// `upstream`, with an empty relation under the columns `fields`.
    pub open spec fn with_derived(
        self,
        id: IdView,
        kind: Derived,
        upstream: Seq<usize>,
        fields: Seq<IdView>,
    ) -> FlowView {
        let n = self.nodes.len();
        FlowView {
            nodes: Seq::new(
                n,
                |u: int|
                    if hits(upstream, u) {
                        NodeView {
                            downstream: self.nodes[u].downstream.push(n as usize),
                            ..self.nodes[u]
                        }
                    } else {
                        self.nodes[u]
                    },
            ).push(
                NodeView { id, view: ViewKind::Derived(kind), upstream, downstream: Seq::empty() },
            ),
            outputs: self.outputs.push(RelationView { fields, rows: Seq::<RowView>::empty() }),
            changes: self.changes,
            dirty: self.dirty.push(false),
            deltas: self.deltas.push(Seq::empty()),
        }
    }

    /// Whether a computed node named `id` over `upstream` may be added: there
    /// is an index left for it, the name is new, and every upstream node
    /// exists already.
    pub open spec fn admits(self, id: IdView, upstream: Seq<usize>) -> bool {
        &&& self.nodes.len() < usize::MAX
        &&& self.lookup(id) is None
        &&& forall|k: int| 0 <= k < upstream.len() ==> (#[trigger] upstream[k]) < self.nodes.len()
    }
}

} // verus!
