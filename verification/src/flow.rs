//! The flow: the graph, its relations, the dirty set and the pending log.

use vstd::prelude::*;
use crate::error::FlowError;
use crate::laws::{
    lemma_advance, lemma_batch_error_prefix, lemma_initial, lemma_lookup_finds,
    lemma_marked_none, lemma_marked_push, lemma_visit_wf, lemma_with_derived_wf,
};
use crate::model::{FlowView, first_named, hits};
use crate::node::{Derived, Node, NodeView, Table, ViewKind};
use crate::relation::{self, Relation, extend_changes};
use crate::value::{Id, row_clone};

verus! {

/// A batch of deltas, each addressed to a node by name. The log has the same
/// shape.
pub type Changes = Vec<(Id, relation::Changes)>;

/// What a flow is built from: per base table its name, its unique columns and
/// its other columns.
pub type Schema = Vec<(Id, Vec<Id>, Vec<Id>)>;

/// A static graph of nodes in topological order, one relation per node, the
/// dirty set, and the log of what changed since it was last drained.
#[derive(Clone, Debug)]
pub struct Flow {
    nodes: Vec<Node>,
    outputs: Vec<Relation>,
    changes: Changes,
    dirty: Vec<bool>,
    deltas: Vec<relation::Changes>,
}

impl View for Flow {
    type V = FlowView;

    closed spec fn view(&self) -> FlowView {
        FlowView {
            nodes: self.nodes.deep_view(),
            outputs: self.outputs.deep_view(),
            changes: self.changes.deep_view(),
            dirty: self.dirty@,
            deltas: self.deltas.deep_view(),
        }
    }
}

/// The columns of a relation: the unique ones, then the others.
fn join_fields(unique: &Vec<Id>, other: &Vec<Id>) -> (fields: Vec<Id>)
    ensures
        fields.deep_view() == unique.deep_view() + other.deep_view(),
{
    let mut fields = row_clone(unique);
    let mut i: usize = 0;
    while i < other.len()
        invariant
            i <= other.len(),
            fields.deep_view() == unique.deep_view() + other.deep_view().take(i as int),
        decreases other.len() - i,
    {
        let ghost before = fields.deep_view();
        fields.push(other[i].clone());
        assert(fields.deep_view() =~= before.push(other[i as int]@));
        assert(fields.deep_view() =~= unique.deep_view() + other.deep_view().take(i + 1));
        i += 1;
    }
    assert(other.deep_view().take(i as int) =~= other.deep_view());
    fields
}

impl Flow {
    /// The structural invariant of the model holds.
    pub open spec fn wf(&self) -> bool {
        self@.wf()
    }

    /// Builds one base table and one empty relation per schema entry, in
    /// schema order.
    pub fn new(schema: &Schema) -> (flow: Flow)
        ensures
            flow.wf(),
            flow@ == FlowView::initial(schema.deep_view()),
            flow@.nodes.len() == schema.len(),
            flow@.outputs.len() == schema.len(),
            flow@.unique_ids() <==> (forall|i: int, j: int|
                0 <= i < j < schema.len() ==> (#[trigger] schema[i]).0@ != (#[trigger] schema[j]).0@),
    {
        let mut flow = Flow {
            nodes: Vec::new(),
            outputs: Vec::new(),
            changes: Vec::new(),
            dirty: Vec::new(),
            deltas: Vec::new(),
        };
        let ghost target = FlowView::initial(schema.deep_view());
        let mut i: usize = 0;
        while i < schema.len()
            invariant
                i <= schema.len(),
                target == FlowView::initial(schema.deep_view()),
                flow.nodes.len() == i,
                flow.outputs.len() == i,
                flow.dirty.len() == i,
                flow.deltas.len() == i,
                flow.changes.len() == 0,
                forall|j: int| 0 <= j < i ==> flow.nodes[j].deep_view() == target.nodes[j],
                forall|j: int| 0 <= j < i ==> flow.outputs[j]@ == target.outputs[j],
                forall|j: int| 0 <= j < i ==> flow.dirty[j] == false,
                forall|j: int| 0 <= j < i ==> flow.deltas[j].deep_view() == target.deltas[j],
            decreases schema.len() - i,
        {
            let entry = &schema[i];
            assert(schema.deep_view()[i as int] == entry.deep_view());
            let node = Node {
                id: entry.0.clone(),
                view: ViewKind::Table(Table),
                upstream: Vec::new(),
                downstream: Vec::new(),
            };
            assert(node.deep_view() == NodeView::table(entry.0@));
            let output = Relation::with_fields(join_fields(&entry.1, &entry.2));
            let delta: relation::Changes = Vec::new();
            assert(delta.deep_view() =~= Seq::empty());
            flow.nodes.push(node);
            flow.outputs.push(output);
            flow.dirty.push(false);
            flow.deltas.push(delta);
            i += 1;
        }
        assert(flow@.nodes =~= target.nodes);
        assert(flow@.outputs =~= target.outputs);
        assert(flow@.changes =~= target.changes);
        assert(flow@.dirty =~= target.dirty);
        assert(flow@.deltas =~= target.deltas);
        proof {
            let names = schema.deep_view();
            lemma_initial(names);
            if flow@.unique_ids() {
                assert forall|i: int, j: int| 0 <= i < j < schema.len() implies (
                #[trigger] schema[i]).0@ != (#[trigger] schema[j]).0@ by {
                    assert(names[i].0 != names[j].0);
                }
            }
            if forall|i: int, j: int|
                0 <= i < j < schema.len() ==> (#[trigger] schema[i]).0@ != (
                #[trigger] schema[j]).0@ {
                assert forall|i: int, j: int| 0 <= i < j < names.len() implies (
                #[trigger] names[i]).0 != (#[trigger] names[j]).0 by {
                    assert(schema[i].0@ != schema[j].0@);
                }
            }
        }
        flow
    }

    /// The number of nodes.
    pub fn len(&self) -> (n: usize)
        ensures
            n == self@.nodes.len(),
    {
        self.nodes.len()
    }

    /// Whether no two nodes share a name, so that lookup is a bijection
    /// between names and indices.
    pub fn has_unique_ids(&self) -> (unique: bool)
        ensures
            unique == self@.unique_ids(),
    {
        let mut j: usize = 0;
        while j < self.nodes.len()
            invariant
                j <= self.nodes.len(),
                forall|a: int, b: int|
                    0 <= a < b < j ==> (#[trigger] self@.nodes[a]).id != (
                    #[trigger] self@.nodes[b]).id,
            decreases self.nodes.len() - j,
        {
            match self.find(&self.nodes[j].id) {
                Some(i) => {
                    if i < j {
                        assert(self@.nodes[i as int].id == self@.nodes[j as int].id);
                        return false;
                    }
                },
                None => {
                    proof {
                        lemma_lookup_finds(self@.nodes, self@.nodes[j as int].id, j as int);
                    }
                },
            }
            assert forall|a: int| 0 <= a < j implies (#[trigger] self@.nodes[a]).id
                != self@.nodes[j as int].id by {}
            j += 1;
        }
        true
    }

    /// The index of the first node named `name`.
    fn find(&self, name: &Id) -> (found: Option<usize>)
        ensures
            match found {
                Some(ix) => first_named(self@.nodes, name@, ix as int),
                None => self@.lookup(name@) is None,
            },
    {
        let mut i: usize = 0;
        while i < self.nodes.len()
            invariant
                i <= self.nodes.len(),
                forall|j: int| 0 <= j < i ==> (#[trigger] self@.nodes[j]).id != name@,
            decreases self.nodes.len() - i,
        {
            if self.nodes[i].id == *name {
                assert(self@.nodes[i as int].id == name@);
                return Some(i);
            }
            assert(self@.nodes[i as int].id != name@);
            i += 1;
        }
        None
    }

    /// Resolves a name to the index of the first node that bears it; `None`
    /// when no node does.
    pub fn get_ix(&self, id: &str) -> (found: Option<usize>)
        ensures
            match found {
                Some(ix) => {
                    &&& self@.lookup(id@) == Some(ix as int)
                    &&& first_named(self@.nodes, id@, ix as int)
                },
                None => self@.lookup(id@) is None,
            },
    {
        self.find(&id.to_owned())
    }

    /// Adds a computed node of the given kind, named `id`, that reads from the
    /// nodes `upstream`, with an empty relation under the columns `fields`,
    /// and records it as downstream of each of them. The node is refused, and
    /// the flow left as it is, when the name is taken or an upstream index is
    /// not that of an existing node: every edge so leads from a smaller index
    /// to a larger one, and no cycle can be built.
    pub fn add_derived(
        &mut self,
        id: Id,
        kind: Derived,
        upstream: Vec<usize>,
        fields: Vec<Id>,
    ) -> (added: Option<usize>)
        requires
            old(self).wf(),
        ensures
            final(self).wf(),
            match added {
                Some(ix) => {
                    &&& old(self)@.admits(id@, upstream@)
                    &&& ix == old(self)@.nodes.len()
                    &&& final(self)@ == old(self)@.with_derived(
                        id@,
                        kind,
                        upstream@,
                        fields.deep_view(),
                    )
                },
                None => !old(self)@.admits(id@, upstream@) && final(self)@ == old(self)@,
            },
            old(self)@.unique_ids() ==> final(self)@.unique_ids(),
    {
        let n = self.nodes.len();
        if n == usize::MAX || self.find(&id).is_some() {
            return None;
        }
        let mut k: usize = 0;
        while k < upstream.len()
            invariant
                self.wf(),
                self@ == old(self)@,
                n == self@.nodes.len(),
                k <= upstream.len(),
                forall|j: int| 0 <= j < k ==> (#[trigger] upstream[j]) < n,
            decreases upstream.len() - k,
        {
            if upstream[k] >= n {
                return None;
            }
            k += 1;
        }
        let ghost before = self@;
        let ghost after = before.with_derived(id@, kind, upstream@, fields.deep_view());
        proof {
            lemma_with_derived_wf(before, id@, kind, upstream@, fields.deep_view());
        }
        let mut k: usize = 0;
        while k < upstream.len()
            invariant
                before.wf(),
                n == before.nodes.len(),
                n < usize::MAX,
                k <= upstream.len(),
                forall|j: int| 0 <= j < upstream.len() ==> (#[trigger] upstream[j]) < n,
                self@.nodes.len() == n,
                self@.outputs == before.outputs,
                self@.changes == before.changes,
                self@.dirty == before.dirty,
                self@.deltas == before.deltas,
                forall|u: int|
                    0 <= u < n ==> (#[trigger] self@.nodes[u]) == if hits(
                        upstream@.take(k as int),
                        u,
                    ) {
                        NodeView { downstream: before.nodes[u].downstream.push(n), ..before.nodes[u] }
                    } else {
                        before.nodes[u]
                    },
            decreases upstream.len() - k,
        {
            let ghost seen = upstream@.take(k as int);
            let u = upstream[k];
            let ghost held = self@.nodes;
            let len = self.nodes[u].downstream.len();
            assert(held[u as int].downstream == self.nodes[u as int].downstream@);
            proof {
                if hits(seen, u as int) {
                    assert(self.nodes[u as int].downstream@[len - 1] == n);
                } else {
                    assert(len > 0 ==> before.nodes[u as int].downstream[len - 1] < n);
                }
            }
            if len == 0 || self.nodes[u].downstream[len - 1] != n {
                self.nodes[u].downstream.push(n);
            }
            assert forall|v: int| 0 <= v < n implies (#[trigger] self@.nodes[v]) == if hits(
                upstream@.take(k + 1),
                v,
            ) {
                NodeView { downstream: before.nodes[v].downstream.push(n), ..before.nodes[v] }
            } else {
                before.nodes[v]
            } by {
                assert(upstream@.take(k + 1) =~= seen.push(u));
                if hits(seen, v) {
                    let w = choose|w: int| 0 <= w < seen.len() && #[trigger] seen[w] == v;
                    assert(seen.push(u)[w] == v);
                }
                if v == u {
                    assert(seen.push(u)[k as int] == v);
                }
                if hits(seen.push(u), v) {
                    let w = choose|w: int|
                        0 <= w < seen.push(u).len() && #[trigger] seen.push(u)[w] == v;
                    if w < k {
                        assert(seen[w] == v);
                    }
                }
                if v != u {
                    assert(self@.nodes[v] == held[v]);
                }
            }
            k += 1;
        }
        assert(upstream@.take(k as int) =~= upstream@);
        let node = Node { id, view: ViewKind::Derived(kind), upstream, downstream: Vec::new() };
        assert(node.deep_view() == after.nodes[n as int]) by {
            assert(node.downstream@ =~= Seq::empty());
        }
        let ghost linked = self@.nodes;
        self.nodes.push(node);
        self.outputs.push(Relation::with_fields(fields));
        self.dirty.push(false);
        let delta: relation::Changes = Vec::new();
        assert(delta.deep_view() =~= Seq::empty());
        self.deltas.push(delta);
        assert forall|u: int| 0 <= u < n + 1 implies self@.nodes[u] == after.nodes[u] by {
            if u < n {
                assert(self@.nodes[u] == linked[u]);
            }
        }
        assert(self@.nodes =~= after.nodes);
        assert(self@.outputs =~= after.outputs);
        assert(self@.dirty =~= after.dirty);
        assert(self@.deltas =~= after.deltas);
        Some(n)
    }

    /// Node `ix`.
    pub fn node(&self, ix: usize) -> (node: &Node)
        requires
            ix < self@.nodes.len(),
        ensures
            node.deep_view() == self@.nodes[ix as int],
    {
        &self.nodes[ix]
    }

    /// The relation of node `ix`.
    pub fn output(&self, ix: usize) -> (output: &Relation)
        requires
            self.wf(),
            ix < self@.nodes.len(),
        ensures
            output@ == self@.outputs[ix as int],
            output.wf(),
    {
        assert(self@.outputs[ix as int].rows.no_duplicates());
        &self.outputs[ix]
    }

    /// The delta that node `ix` took in since the last sweep ended.
    pub fn delta(&self, ix: usize) -> (delta: &relation::Changes)
        requires
            self.wf(),
            ix < self@.nodes.len(),
        ensures
            delta.deep_view() == self@.deltas[ix as int],
    {
        &self.deltas[ix]
    }

    /// Whether node `ix` has unpropagated input.
    pub fn is_dirty(&self, ix: usize) -> (dirty: bool)
        requires
            self.wf(),
            ix < self@.nodes.len(),
        ensures
            dirty == self@.dirty[ix as int],
    {
        self.dirty[ix]
    }

    /// Resolves every entry of a batch, or names the fault of the first one
    /// that is refused.
    fn resolve(&self, changes: &Changes) -> (result: Result<Vec<usize>, FlowError>)
        ensures
            match result {
                Ok(targets) => {
                    &&& self@.batch_error(changes.deep_view()) is None
                    &&& targets.len() == changes.len()
                    &&& forall|k: int|
                        0 <= k < targets.len() ==> self@.lookup(
                            (#[trigger] changes.deep_view()[k]).0,
                        ) == Some(targets[k] as int)
                },
                Err(e) => self@.batch_error(changes.deep_view()) == Some(e),
            },
    {
        let ghost batch = changes.deep_view();
        let mut targets: Vec<usize> = Vec::new();
        let mut i: usize = 0;
        while i < changes.len()
            invariant
                i <= changes.len(),
                batch == changes.deep_view(),
                targets.len() == i,
                self@.batch_error(batch.take(i as int)) is None,
                forall|k: int|
                    0 <= k < i ==> self@.lookup((#[trigger] batch[k]).0) == Some(targets[k] as int),
            decreases changes.len() - i,
        {
            assert(batch.take(i + 1).drop_last() =~= batch.take(i as int));
            assert(batch[i as int].0 == changes[i as int].0@);
            let fault = match self.find(&changes[i].0) {
                None => Some(FlowError::UnknownNode),
                Some(ix) => {
                    match self.nodes[ix].view {
                        ViewKind::Table(_) => {
                            targets.push(ix);
                            None
                        },
                        ViewKind::Derived(_) => Some(FlowError::InvalidTarget),
                    }
                },
            };
            assert(fault == self@.entry_error(batch[i as int].0));
            if let Some(e) = fault {
                proof {
                    lemma_batch_error_prefix(self@, batch, i + 1);
                }
                return Err(e);
            }
            i += 1;
        }
        assert(batch.take(i as int) =~= batch);
        Ok(targets)
    }

    /// Applies one accepted entry to the base table `ix` that it names.
    fn ingest_one(&mut self, ix: usize, id: Id, delta: relation::Changes)
        requires
            old(self).wf(),
            old(self)@.lookup(id@) == Some(ix as int),
        ensures
            final(self).wf(),
            final(self)@ == old(self)@.ingest_one((id@, delta.deep_view())),
    {
        let ghost before = self@;
        let ghost after = before.ingest_one((id@, delta.deep_view()));
        self.outputs[ix].change(&delta);
        self.dirty[ix] = true;
        extend_changes(&mut self.deltas[ix], &delta);
        self.changes.push((id, delta));
        assert(self@.nodes =~= after.nodes);
        assert(self@.outputs =~= after.outputs);
        assert(self@.changes =~= after.changes);
        assert(self@.dirty =~= after.dirty);
        assert(self@.deltas =~= after.deltas);
    }

    /// Ingests a batch. The whole batch is checked before anything changes:
    /// if an entry names no node, or a node that is not a base table, the
    /// fault of the first such entry is returned and the flow is untouched.
    /// Otherwise every delta is applied to its table, in order; the table is
    /// marked dirty and the entry appended to the log.
    pub fn change(&mut self, changes: Changes) -> (result: Result<(), FlowError>)
        requires
            old(self).wf(),
        ensures
            final(self).wf(),
            final(self)@.nodes == old(self)@.nodes,
            match result {
                Ok(()) => {
                    &&& old(self)@.batch_error(changes.deep_view()) is None
                    &&& final(self)@ == old(self)@.ingest(changes.deep_view())
                },
                Err(e) => {
                    &&& old(self)@.batch_error(changes.deep_view()) == Some(e)
                    &&& final(self)@ == old(self)@
                },
            },
    {
        let targets = match self.resolve(&changes) {
            Ok(targets) => targets,
            Err(e) => {
                return Err(e);
            },
        };
        let ghost batch = changes.deep_view();
        let ghost raw = changes@;
        let mut k: usize = 0;
        for entry in it: changes
            invariant
                k == it.index(),
                it.seq() == raw,
                targets.len() == raw.len(),
                batch.len() == raw.len(),
                forall|j: int| 0 <= j < raw.len() ==> batch[j] == raw[j].deep_view(),
                forall|j: int|
                    0 <= j < targets.len() ==> old(self)@.lookup((#[trigger] batch[j]).0) == Some(
                        targets[j] as int,
                    ),
                self.wf(),
                self@.nodes == old(self)@.nodes,
                self@ == old(self)@.ingest(batch.take(k as int)),
        {
            assert(batch.take(k + 1).drop_last() =~= batch.take(k as int));
            assert(entry == raw[k as int]);
            assert(batch[k as int] == entry.deep_view());
            let (id, delta) = entry;
            assert(batch[k as int] == (id@, delta.deep_view()));
            self.ingest_one(targets[k], id, delta);
            k += 1;
        }
        assert(batch.take(k as int) =~= batch);
        Ok(())
    }

    /// The full state: for every node, in order, its name and every row of its
    /// relation as an insert. Reads the relations only.
    pub fn as_changes(&self) -> (changes: Changes)
        requires
            self.wf(),
        ensures
            changes.deep_view() == self@.snapshot(),
    {
        let mut changes: Changes = Vec::new();
        let mut ix: usize = 0;
        while ix < self.nodes.len()
            invariant
                self.wf(),
                ix <= self.nodes.len(),
                changes.len() == ix,
                forall|j: int| 0 <= j < ix ==> changes[j].deep_view() == self@.snapshot()[j],
            decreases self.nodes.len() - ix,
        {
            changes.push((self.nodes[ix].id.clone(), self.outputs[ix].as_changes()));
            ix += 1;
        }
        assert(changes.deep_view() =~= self@.snapshot());
        changes
    }

    /// Detaches the log and returns it, oldest entry first; the flow's log is
    /// empty afterwards.
    pub fn take_changes(&mut self) -> (changes: Changes)
        ensures
            changes.deep_view() == old(self)@.changes,
            final(self)@ == old(self)@.drained(),
            old(self).wf() ==> final(self).wf(),
    {
        let mut changes: Changes = Vec::new();
        std::mem::swap(&mut self.changes, &mut changes);
        assert(self@.changes =~= Seq::empty());
        changes
    }

    /// Marks every downstream node of `ix` dirty.
    fn mark_downstream(&mut self, ix: usize)
        requires
            old(self).wf(),
            ix < old(self)@.nodes.len(),
        ensures
            final(self)@ == (FlowView {
                dirty: old(self)@.marked(old(self)@.nodes[ix as int].downstream),
                ..old(self)@
            }),
    {
        let ghost before = self@;
        let ghost targets = before.nodes[ix as int].downstream;
        proof {
            lemma_marked_none(before);
            assert(targets.take(0) =~= Seq::empty());
        }
        let mut k: usize = 0;
        while k < self.nodes[ix].downstream.len()
            invariant
                before == old(self)@,
                before.wf(),
                ix < before.nodes.len(),
                targets == before.nodes[ix as int].downstream,
                k <= targets.len(),
                self@ == (FlowView { dirty: before.marked(targets.take(k as int)), ..before }),
            decreases targets.len() - k,
        {
            let target = self.nodes[ix].downstream[k];
            assert(target == targets[k as int]);
            self.dirty[target] = true;
            proof {
                assert(targets.take(k + 1) =~= targets.take(k as int).push(target));
                lemma_marked_push(before, targets.take(k as int), target);
            }
            k += 1;
        }
        assert(targets.take(k as int) =~= targets);
    }

    /// Whether node `ix` is dirty and computed, so that the sweep needs its
    /// transform's delta.
    pub fn awaits(&self, ix: usize) -> (waiting: bool)
        requires
            self.wf(),
        ensures
            waiting == self@.awaits(ix as int),
    {
        if ix >= self.nodes.len() || !self.dirty[ix] {
            return false;
        }
        match self.nodes[ix].view {
            ViewKind::Table(_) => false,
            ViewKind::Derived(_) => true,
        }
    }

    /// Passes a node that needs no transform: a clean node stays as it is; a
    /// dirty base table, whose content ingestion made current, dirties its
    /// downstream nodes and is then clean.
    fn pass(&mut self, ix: usize)
        requires
            old(self).wf(),
            ix < old(self)@.nodes.len(),
            !old(self)@.awaits(ix as int),
        ensures
            final(self).wf(),
            final(self)@ == old(self)@.pass(ix as int),
    {
        if self.dirty[ix] {
            self.mark_downstream(ix);
            self.dirty[ix] = false;
            assert(self@.dirty =~= old(self)@.pass(ix as int).dirty);
        }
    }

    /// Gives the dirty computed node `ix` the delta that its transform
    /// produced: applies it to the node's relation, appends it to the log
    /// under the node's name, dirties the downstream nodes unless the delta is
    /// empty, and clears the node's own bit.
    pub fn settle(&mut self, ix: usize, delta: relation::Changes)
        requires
            old(self).wf(),
            old(self)@.awaits(ix as int),
        ensures
            final(self).wf(),
            final(self)@ == old(self)@.settle(ix as int, delta.deep_view()),
            delta.deep_view().len() == 0 ==> final(self)@.dirty == old(self)@.dirty.update(
                ix as int,
                false,
            ),
    {
        let ghost before = self@;
        let ghost after = before.settle(ix as int, delta.deep_view());
        self.outputs[ix].change(&delta);
        assert(self@.outputs =~= before.absorb(ix as int, delta.deep_view()).outputs);
        assert(self@ == before.absorb(ix as int, delta.deep_view()));
        if delta.len() > 0 {
            self.mark_downstream(ix);
        }
        self.dirty[ix] = false;
        let mut taken: relation::Changes = Vec::new();
        extend_changes(&mut taken, &delta);
        assert(taken.deep_view() =~= delta.deep_view());
        self.deltas[ix] = taken;
        self.changes.push((self.nodes[ix].id.clone(), delta));
        assert(self@.nodes =~= after.nodes);
        assert(self@.outputs =~= after.outputs);
        assert(self@.changes =~= after.changes);
        assert(self@.dirty =~= after.dirty);
        assert(self@.deltas =~= after.deltas);
    }

    /// Ends a sweep: every node is clean and has taken nothing in.
    fn finish(&mut self)
        requires
            old(self).wf(),
        ensures
            final(self).wf(),
            final(self)@ == old(self)@.finished(),
    {
        let ghost before = self@;
        let mut ix: usize = 0;
        while ix < self.nodes.len()
            invariant
                before.wf(),
                ix <= before.nodes.len(),
                self@.nodes == before.nodes,
                self@.outputs == before.outputs,
                self@.changes == before.changes,
                self@.dirty.len() == before.dirty.len(),
                self@.deltas.len() == before.deltas.len(),
                forall|j: int| 0 <= j < ix ==> !self@.dirty[j] && self@.deltas[j] == Seq::<
                    crate::relation::ChangeView,
                >::empty(),
            decreases before.nodes.len() - ix,
        {
            self.dirty[ix] = false;
            let empty: relation::Changes = Vec::new();
            assert(empty.deep_view() =~= Seq::empty());
            self.deltas[ix] = empty;
            ix += 1;
        }
        assert(self@.dirty =~= before.finished().dirty);
        assert(self@.deltas =~= before.finished().deltas);
    }

    /// Moves the sweep on from node `from`: passes, in index order, every node
    /// that needs no transform, and stops before the first dirty computed
    /// node, whose index it returns. At the end of the nodes it ends the
    /// sweep and returns `None`.
    pub fn advance(&mut self, from: usize) -> (next: Option<usize>)
        requires
            old(self).wf(),
        ensures
            final(self).wf(),
            final(self)@ == old(self)@.advance(from as int),
            final(self)@.nodes == old(self)@.nodes,
            final(self)@.outputs == old(self)@.outputs,
            final(self)@.changes == old(self)@.changes,
            match next {
                Some(ix) => {
                    &&& old(self)@.next_awaiting(from as int) == Some(ix as int)
                    &&& from <= ix < old(self)@.nodes.len()
                    &&& final(self)@.awaits(ix as int)
                },
                None => {
                    &&& old(self)@.next_awaiting(from as int) is None
                    &&& final(self)@ == final(self)@.finished()
                },
            },
    {
        let mut cursor = from;
        while cursor < self.nodes.len()
            invariant
                self.wf(),
                from <= cursor,
                self@.nodes == old(self)@.nodes,
                self@.outputs == old(self)@.outputs,
                self@.changes == old(self)@.changes,
                old(self)@.advance(from as int) == self@.advance(cursor as int),
                old(self)@.next_awaiting(from as int) == self@.next_awaiting(cursor as int),
            decreases self.nodes.len() - cursor,
        {
            if self.awaits(cursor) {
                return Some(cursor);
            }
            self.pass(cursor);
            cursor += 1;
        }
        self.finish();
        assert(self@.finished() =~= self@) by {
            assert(self@.finished().dirty =~= self@.dirty);
            assert(self@.finished().deltas =~= self@.deltas);
        }
        None
    }

    /// One sweep of propagation. Nodes are visited in index order, every node
    /// once. Clean nodes are skipped, dirty base tables dirty their downstream
    /// nodes, and for every dirty computed node `transform` is called with the
    /// flow as it stands then and the node's index; the delta it returns is
    /// given to [`Flow::settle`]. Afterwards every node is clean.
    ///
    /// The transform reads the node's prior state and, for each upstream
    /// node, its current relation and the delta it took in during this sweep.
    pub fn propagate<F: Fn(&Flow, usize) -> relation::Changes>(&mut self, transform: F)
        requires
            old(self).wf(),
            forall|at: Flow, ix: usize|
                at.wf() && at@.nodes == old(self)@.nodes && at@.awaits(ix as int)
                    ==> #[trigger] call_requires(transform, (&at, ix)),
        ensures
            final(self).wf(),
            sweeps(transform, old(self)@, 0, final(self)@),
            final(self)@.nodes == old(self)@.nodes,
            final(self)@ == final(self)@.finished(),
            old(self)@.changes.is_prefix_of(final(self)@.changes),
            forall|ix: int|
                0 <= ix < old(self)@.nodes.len() ==> (#[trigger] final(self)@.outputs[ix]).fields
                    == old(self)@.outputs[ix].fields,
            forall|ix: int|
                0 <= ix < old(self)@.nodes.len() && old(self)@.nodes[ix].view is Table ==> (
                #[trigger] final(self)@.outputs[ix]) == old(self)@.outputs[ix],
    {
        let mut cursor: usize = 0;
        loop
            invariant_except_break
                forall|after: FlowView| #[trigger]
                    sweeps(transform, self@, cursor as int, after) ==> sweeps(
                        transform,
                        old(self)@,
                        0,
                        after,
                    ),
            invariant
                self.wf(),
                self@.nodes == old(self)@.nodes,
                forall|at: Flow, ix: usize|
                    at.wf() && at@.nodes == old(self)@.nodes && at@.awaits(ix as int)
                        ==> #[trigger] call_requires(transform, (&at, ix)),
            ensures
                sweeps(transform, old(self)@, 0, self@),
            decreases self@.nodes.len() - cursor,
        {
            let ghost start = self@;
            match self.advance(cursor) {
                None => {
                    assert(sweeps(transform, start, cursor as int, self@));
                    break ;
                },
                Some(ix) => {
                    let ghost at = *self;
                    let delta = transform(&*self, ix);
                    let ghost handed = delta;
                    self.settle(ix, delta);
                    assert forall|after: FlowView| #[trigger]
                        sweeps(transform, self@, ix + 1, after) implies sweeps(
                        transform,
                        start,
                        cursor as int,
                        after,
                    ) by {
                        lemma_sweeps_step(transform, start, cursor as int, at, ix, handed, after);
                    }
                    assert(self@.nodes.len() == self.nodes.len());
                    cursor = ix + 1;
                },
            }
        }
        proof {
            lemma_sweeps_frame(transform, old(self)@, 0, self@);
        }
    }
}

/// The sweep over `before`, started at `from`, stops before the computed node
/// `ix`; `at` reads as the flow reads at that moment, and `delta` is what
/// `transform` may return when it is called on `at` and `ix`.
pub open spec fn calls<F: Fn(&Flow, usize) -> relation::Changes>(
    transform: F,
    before: FlowView,
    from: int,
    ix: int,
    at: Flow,
    delta: relation::Changes,
) -> bool {
    &&& before.next_awaiting(from) == Some(ix)
    &&& at@ == before.advance(from)
    &&& call_ensures(transform, (&at, ix as usize), delta)
}

/// What one sweep from node `from` on may make of the flow `before`: the
/// sweep advances to the next dirty computed node; `transform` is called on
/// the flow as it reads at that moment, and on that node's index; the delta
/// it returns is settled; and the sweep goes on behind that node. `after` is
/// the flow when the sweep has reached the end.
pub open spec fn sweeps<F: Fn(&Flow, usize) -> relation::Changes>(
    transform: F,
    before: FlowView,
    from: int,
    after: FlowView,
) -> bool
    decreases before.nodes.len() - from,
{
    match before.next_awaiting(from) {
        None => after == before.advance(from),
        Some(ix) => from <= ix < before.nodes.len() && exists|
            at: Flow,
            delta: relation::Changes,
        |
            #![trigger calls(transform, before, from, ix, at, delta)]
            {
                &&& calls(transform, before, from, ix, at, delta)
                &&& at@.nodes == before.nodes
                &&& sweeps(transform, at@.settle(ix, delta.deep_view()), ix + 1, after)
            },
    }
}

/// A sweep that stops before node `ix`, hands the flow `at` to the transform
/// and goes on from what `delta` settles to, is a sweep from where it began.
proof fn lemma_sweeps_step<F: Fn(&Flow, usize) -> relation::Changes>(
    transform: F,
    before: FlowView,
    from: int,
    at: Flow,
    ix: usize,
    delta: relation::Changes,
    after: FlowView,
)
    requires
        before.next_awaiting(from) == Some(ix as int),
        from <= ix < before.nodes.len(),
        at@ == before.advance(from),
        at@.nodes == before.nodes,
        call_ensures(transform, (&at, ix), delta),
        sweeps(transform, at@.settle(ix as int, delta.deep_view()), ix + 1, after),
    ensures
        sweeps(transform, before, from, after),
{
    assert(calls(transform, before, from, ix as int, at, delta));
}

/// Whatever the transform returns, a sweep keeps the structural invariant
/// and the nodes, leaves every node clean with nothing taken in, only
/// appends to the log, keeps every column, and changes no base table.
pub proof fn lemma_sweeps_frame<F: Fn(&Flow, usize) -> relation::Changes>(
    transform: F,
    before: FlowView,
    from: int,
    after: FlowView,
)
    requires
        before.wf(),
        0 <= from,
        sweeps(transform, before, from, after),
    ensures
        after.wf(),
        after.nodes == before.nodes,
        after == after.finished(),
        before.changes.is_prefix_of(after.changes),
        forall|ix: int|
            0 <= ix < before.nodes.len() ==> (#[trigger] after.outputs[ix]).fields
                == before.outputs[ix].fields,
        forall|ix: int|
            0 <= ix < before.nodes.len() && before.nodes[ix].view is Table ==> (
            #[trigger] after.outputs[ix]) == before.outputs[ix],
    decreases before.nodes.len() - from,
{
    lemma_advance(before, from);
    match before.next_awaiting(from) {
        None => {},
        Some(ix) => {
            let (at, delta) = choose|at: Flow, delta: relation::Changes|
                #![trigger calls(transform, before, from, ix, at, delta)]
                {
                    &&& calls(transform, before, from, ix, at, delta)
                    &&& at@.nodes == before.nodes
                    &&& sweeps(transform, at@.settle(ix, delta.deep_view()), ix + 1, after)
                };
            let settled = at@.settle(ix, delta.deep_view());
            lemma_visit_wf(at@, ix, delta.deep_view());
            lemma_sweeps_frame(transform, settled, ix + 1, after);
            assert forall|j: int| 0 <= j < before.nodes.len() implies (
            #[trigger] after.outputs[j]).fields == before.outputs[j].fields by {
                assert(after.outputs[j].fields == settled.outputs[j].fields);
            }
            assert forall|j: int|
                0 <= j < before.nodes.len() && before.nodes[j].view is Table implies (
            #[trigger] after.outputs[j]) == before.outputs[j] by {
                assert(after.outputs[j] == settled.outputs[j]);
            }
        },
    }
}

/// A sweep whose transform can only return empty deltas changes no
/// relation: nothing is applied, and nothing spreads.
pub proof fn lemma_sweeps_idle<F: Fn(&Flow, usize) -> relation::Changes>(
    transform: F,
    before: FlowView,
    from: int,
    after: FlowView,
)
    requires
        before.wf(),
        0 <= from,
        sweeps(transform, before, from, after),
        forall|at: Flow, ix: usize, delta: relation::Changes| #[trigger]
            call_ensures(transform, (&at, ix), delta) ==> delta.deep_view().len() == 0,
    ensures
        after.outputs == before.outputs,
    decreases before.nodes.len() - from,
{
    lemma_advance(before, from);
    match before.next_awaiting(from) {
        None => {},
        Some(ix) => {
            let (at, delta) = choose|at: Flow, delta: relation::Changes|
                #![trigger calls(transform, before, from, ix, at, delta)]
                {
                    &&& calls(transform, before, from, ix, at, delta)
                    &&& at@.nodes == before.nodes
                    &&& sweeps(transform, at@.settle(ix, delta.deep_view()), ix + 1, after)
                };
            let settled = at@.settle(ix, delta.deep_view());
            lemma_visit_wf(at@, ix, delta.deep_view());
            assert(settled.outputs =~= at@.outputs);
            lemma_sweeps_idle(transform, settled, ix + 1, after);
        },
    }
}

} // verus!
