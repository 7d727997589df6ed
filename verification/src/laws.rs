//! What holds of the operations of a flow, whatever the flow and the input.

use vstd::prelude::*;
use crate::error::FlowError;
use crate::model::{EntryView, FlowView, SchemaEntryView, addressed, first_named, hits, lookup};
use crate::node::{Derived, NodeView};
use crate::relation::{
    ChangeView, ChangesView, apply_all, as_inserts, lemma_apply_all_concat,
    lemma_apply_all_contains, lemma_apply_all_no_duplicates, lemma_insert_present, present_after,
};
use crate::value::{IdView, RowView};

verus! {

/// Marking one more target sets that node's bit and no other.
pub proof fn lemma_marked_push(flow: FlowView, targets: Seq<usize>, target: usize)
    requires
        target < flow.dirty.len(),
    ensures
        flow.marked(targets.push(target)) == flow.marked(targets).update(target as int, true),
{
    let more = targets.push(target);
    assert forall|j: int| 0 <= j < flow.dirty.len() implies (hits(more, j) <==> hits(targets, j)
        || j == target) by {
        if hits(targets, j) {
            let k = choose|k: int| 0 <= k < targets.len() && #[trigger] targets[k] == j;
            assert(more[k] == j);
        }
        if j == target {
            assert(more[targets.len() as int] == j);
        }
        if hits(more, j) {
            let k = choose|k: int| 0 <= k < more.len() && #[trigger] more[k] == j;
            if k < targets.len() {
                assert(targets[k] == j);
            }
        }
    }
    assert(flow.marked(more) =~= flow.marked(targets).update(target as int, true));
}

/// Marking no target changes no bit.
pub proof fn lemma_marked_none(flow: FlowView)
    ensures
        flow.marked(Seq::empty()) == flow.dirty,
{
    assert(flow.marked(Seq::empty()) =~= flow.dirty);
}

/// A fault found in the first `k` entries of a batch is the fault of the
/// whole batch.
pub proof fn lemma_batch_error_prefix(flow: FlowView, batch: Seq<EntryView>, k: int)
    requires
        0 <= k <= batch.len(),
        flow.batch_error(batch.take(k)) is Some,
    ensures
        flow.batch_error(batch) == flow.batch_error(batch.take(k)),
    decreases batch.len() - k,
{
    if k < batch.len() {
        assert(batch.take(k + 1).drop_last() =~= batch.take(k));
        lemma_batch_error_prefix(flow, batch, k + 1);
    } else {
        assert(batch.take(k) =~= batch);
    }
}

/// Adding a computed node that the flow admits keeps the structural
/// invariant.
pub proof fn lemma_with_derived_wf(
    flow: FlowView,
    id: IdView,
    kind: Derived,
    upstream: Seq<usize>,
    fields: Seq<IdView>,
)
    requires
        flow.wf(),
        flow.admits(id, upstream),
    ensures
        flow.with_derived(id, kind, upstream, fields).wf(),
        flow.unique_ids() ==> flow.with_derived(id, kind, upstream, fields).unique_ids(),
{
    let n = flow.nodes.len() as int;
    let more = flow.with_derived(id, kind, upstream, fields);
    assert(more.nodes.len() == n + 1);
    assert forall|i: int| 0 <= i < n + 1 implies (#[trigger] more.outputs[i]).rows.no_duplicates() by {
        if i < n {
            assert(more.outputs[i] == flow.outputs[i]);
        }
    }
    assert forall|i: int, k: int|
        0 <= i < n + 1 && 0 <= k < more.nodes[i].upstream.len() implies (
    #[trigger] more.nodes[i].upstream[k]) < i by {
        if i < n {
            assert(more.nodes[i].upstream == flow.nodes[i].upstream);
            assert(flow.nodes[i].upstream[k] < i);
        }
    }
    assert forall|u: int, k: int|
        0 <= u < n + 1 && 0 <= k < more.nodes[u].downstream.len() implies u < (
    #[trigger] more.nodes[u].downstream[k]) < n + 1 by {
        if u < n {
            if k < flow.nodes[u].downstream.len() {
                assert(more.nodes[u].downstream[k] == flow.nodes[u].downstream[k]);
            }
        }
    }
    assert forall|u: usize, i: usize|
        #![trigger more.nodes[u as int].downstream.contains(i)]
        #![trigger more.nodes[i as int].upstream.contains(u)]
        u < n + 1 && i < n + 1 implies (more.nodes[u as int].downstream.contains(i)
        <==> more.nodes[i as int].upstream.contains(u)) by {
        let down = more.nodes[u as int].downstream;
        let up = more.nodes[i as int].upstream;
        if u < n && i < n {
            let was = flow.nodes[u as int].downstream;
            assert(up == flow.nodes[i as int].upstream);
            assert(was.contains(i) <==> up.contains(u));
            if down.contains(i) {
                let k = choose|k: int| 0 <= k < down.len() && down[k] == i;
                assert(k < was.len());
                assert(was[k] == i);
            }
            if was.contains(i) {
                let k = choose|k: int| 0 <= k < was.len() && was[k] == i;
                assert(down[k] == i);
            }
        } else if u < n {
            let was = flow.nodes[u as int].downstream;
            assert(up == upstream);
            if down.contains(i) {
                let k = choose|k: int| 0 <= k < down.len() && down[k] == i;
                if k < was.len() {
                    assert(was[k] < n);
                }
                assert(hits(upstream, u as int));
                let w = choose|w: int| 0 <= w < upstream.len() && #[trigger] upstream[w] == u as int;
                assert(upstream[w] == u);
            }
            if up.contains(u) {
                let w = choose|w: int| 0 <= w < up.len() && up[w] == u;
                assert(upstream[w] == u as int);
                assert(hits(upstream, u as int));
                assert(down[was.len() as int] == i);
            }
        } else {
            assert(down.len() == 0);
            if up.contains(u) {
                let w = choose|w: int| 0 <= w < up.len() && up[w] == u;
                if i < n {
                    assert(flow.nodes[i as int].upstream[w] < i);
                } else {
                    assert(upstream[w] < n);
                }
            }
        }
    }
    if flow.unique_ids() {
        assert forall|i: int, j: int| 0 <= i < j < n + 1 implies (#[trigger] more.nodes[i]).id != (
        #[trigger] more.nodes[j]).id by {
            assert(more.nodes[i].id == flow.nodes[i].id);
            if j < n {
                assert(more.nodes[j].id == flow.nodes[j].id);
            } else {
                if flow.nodes[i].id == id {
                    lemma_lookup_finds(flow.nodes, id, i);
                }
            }
        }
    }
}

/// A name that some node bears resolves.
pub proof fn lemma_lookup_finds(nodes: Seq<NodeView>, id: IdView, ix: int)
    requires
        0 <= ix < nodes.len(),
        nodes[ix].id == id,
    ensures
        lookup(nodes, id) is Some,
        0 <= lookup(nodes, id).unwrap() <= ix,
        first_named(nodes, id, lookup(nodes, id).unwrap()),
    decreases ix,
{
    if exists|j: int| 0 <= j < ix && (#[trigger] nodes[j]).id == id {
        let j = choose|j: int| 0 <= j < ix && (#[trigger] nodes[j]).id == id;
        lemma_lookup_finds(nodes, id, j);
    } else {
        assert(first_named(nodes, id, ix));
    }
}

/// A name resolves to a node that bears it, and to none where no node does.
pub proof fn lemma_lookup_sound(flow: FlowView, id: IdView)
    ensures
        match flow.lookup(id) {
            Some(ix) => first_named(flow.nodes, id, ix),
            None => forall|j: int| 0 <= j < flow.nodes.len() ==> (#[trigger] flow.nodes[j]).id != id,
        },
{
    if flow.lookup(id) is None {
        assert forall|j: int| 0 <= j < flow.nodes.len() implies (#[trigger] flow.nodes[j]).id
            != id by {
            if flow.nodes[j].id == id {
                lemma_lookup_finds(flow.nodes, id, j);
            }
        }
    }
}

/// Where no two nodes share a name, lookup is a bijection between the names
/// of the nodes and their indices: every node's name resolves to that node,
/// and whatever resolves to a node is its name.
pub proof fn lemma_lookup_bijective(flow: FlowView)
    requires
        flow.unique_ids(),
    ensures
        forall|ix: int|
            0 <= ix < flow.nodes.len() ==> flow.lookup((#[trigger] flow.nodes[ix]).id) == Some(ix),
        forall|id: IdView| #[trigger]
            flow.lookup(id) is Some ==> 0 <= flow.lookup(id).unwrap() < flow.nodes.len()
                && flow.nodes[flow.lookup(id).unwrap()].id == id,
{
    assert forall|ix: int| 0 <= ix < flow.nodes.len() implies flow.lookup(
        (#[trigger] flow.nodes[ix]).id,
    ) == Some(ix) by {
        lemma_lookup_finds(flow.nodes, flow.nodes[ix].id, ix);
    }
    assert forall|id: IdView| #[trigger] flow.lookup(id) is Some implies 0 <= flow.lookup(
        id,
    ).unwrap() < flow.nodes.len() && flow.nodes[flow.lookup(id).unwrap()].id == id by {
        lemma_lookup_sound(flow, id);
    }
}

/// A flow built from a schema of `n` entries has `n` nodes and `n` relations
/// and meets the structural invariant; it has no two nodes of one name
/// exactly when the schema names no table twice, and then every name of the
/// schema resolves to its own position.
pub proof fn lemma_initial(schema: Seq<SchemaEntryView>)
    requires
        schema.len() <= usize::MAX,
    ensures
        FlowView::initial(schema).wf(),
        FlowView::initial(schema).nodes.len() == schema.len(),
        FlowView::initial(schema).outputs.len() == schema.len(),
        FlowView::initial(schema).unique_ids() <==> (forall|i: int, j: int|
            0 <= i < j < schema.len() ==> (#[trigger] schema[i]).0 != (#[trigger] schema[j]).0),
        FlowView::initial(schema).unique_ids() ==> (forall|i: int|
            0 <= i < schema.len() ==> FlowView::initial(schema).lookup((#[trigger] schema[i]).0)
                == Some(i)),
{
    let flow = FlowView::initial(schema);
    assert forall|u: usize, i: usize|
        #![trigger flow.nodes[u as int].downstream.contains(i)]
        #![trigger flow.nodes[i as int].upstream.contains(u)]
        u < flow.nodes.len() && i < flow.nodes.len() implies (flow.nodes[u as int].downstream.contains(
        i,
    ) <==> flow.nodes[i as int].upstream.contains(u)) by {
        assert(flow.nodes[u as int].downstream.len() == 0);
        assert(flow.nodes[i as int].upstream.len() == 0);
    }
    if flow.unique_ids() {
        assert forall|i: int, j: int| 0 <= i < j < schema.len() implies (#[trigger] schema[i]).0 != (
        #[trigger] schema[j]).0 by {
            assert(flow.nodes[i].id != flow.nodes[j].id);
        }
        lemma_lookup_bijective(flow);
        assert forall|i: int| 0 <= i < schema.len() implies flow.lookup((#[trigger] schema[i]).0)
            == Some(i) by {
            assert(flow.nodes[i].id == schema[i].0);
        }
    }
    if forall|i: int, j: int|
        0 <= i < j < schema.len() ==> (#[trigger] schema[i]).0 != (#[trigger] schema[j]).0 {
        assert forall|i: int, j: int| 0 <= i < j < flow.nodes.len() implies (
        #[trigger] flow.nodes[i]).id != (#[trigger] flow.nodes[j]).id by {
            assert(schema[i].0 != schema[j].0);
        }
    }
}

/// Whether a batch is accepted depends on the nodes alone.
pub proof fn lemma_batch_error_by_nodes(a: FlowView, b: FlowView, batch: Seq<EntryView>)
    requires
        a.nodes == b.nodes,
    ensures
        a.batch_error(batch) == b.batch_error(batch),
    decreases batch.len(),
{
    if batch.len() > 0 {
        lemma_batch_error_by_nodes(a, b, batch.drop_last());
    }
}

/// The fault of a batch is that of its first refused entry; a batch has none
/// exactly when every entry names a base table.
pub proof fn lemma_batch_error_first(flow: FlowView, batch: Seq<EntryView>)
    ensures
        match flow.batch_error(batch) {
            Some(e) => exists|k: int|
                0 <= k < batch.len() && flow.entry_error((#[trigger] batch[k]).0) == Some(e)
                    && forall|j: int| 0 <= j < k ==> flow.entry_error((#[trigger] batch[j]).0) is None,
            None => forall|k: int|
                0 <= k < batch.len() ==> flow.entry_error((#[trigger] batch[k]).0) is None,
        },
    decreases batch.len(),
{
    if batch.len() > 0 {
        let front = batch.drop_last();
        lemma_batch_error_first(flow, front);
        match flow.batch_error(front) {
            Some(e) => {
                let k = choose|k: int|
                    0 <= k < front.len() && flow.entry_error((#[trigger] front[k]).0) == Some(e)
                        && forall|j: int|
                        0 <= j < k ==> flow.entry_error((#[trigger] front[j]).0) is None;
                assert(batch[k] == front[k]);
                assert forall|j: int| 0 <= j < k implies flow.entry_error(
                    (#[trigger] batch[j]).0,
                ) is None by {
                    assert(batch[j] == front[j]);
                }
            },
            None => {
                let last = batch.len() - 1;
                assert forall|j: int| 0 <= j < last implies flow.entry_error(
                    (#[trigger] batch[j]).0,
                ) is None by {
                    assert(batch[j] == front[j]);
                }
                if flow.entry_error(batch.last().0) is Some {
                    assert(flow.entry_error(batch[last].0) == flow.batch_error(batch));
                }
            },
        }
    }
}

/// An entry is refused as unknown exactly when no node bears its name, and
/// as an invalid target exactly when the first node of that name is computed.
pub proof fn lemma_entry_error(flow: FlowView, id: IdView)
    ensures
        flow.entry_error(id) == Some(FlowError::UnknownNode) <==> (forall|j: int|
            0 <= j < flow.nodes.len() ==> (#[trigger] flow.nodes[j]).id != id),
        flow.entry_error(id) == Some(FlowError::InvalidTarget) <==> (exists|ix: int|
            first_named(flow.nodes, id, ix) && flow.nodes[ix].view is Derived),
{
    lemma_lookup_sound(flow, id);
    if flow.lookup(id) is Some {
        let ix = flow.lookup(id).unwrap();
        assert(first_named(flow.nodes, id, ix));
        assert(flow.nodes[ix].id == id);
    }
}

/// Ingestion does not change the nodes.
pub proof fn lemma_ingest_keeps_nodes(flow: FlowView, batch: Seq<EntryView>)
    ensures
        flow.ingest(batch).nodes == flow.nodes,
    decreases batch.len(),
{
    if batch.len() > 0 {
        lemma_ingest_keeps_nodes(flow, batch.drop_last());
    }
}

/// Ingesting an accepted batch keeps the structural invariant.
pub proof fn lemma_ingest_wf(flow: FlowView, batch: Seq<EntryView>)
    requires
        flow.wf(),
        flow.batch_error(batch) is None,
    ensures
        flow.ingest(batch).wf(),
    decreases batch.len(),
{
    if batch.len() > 0 {
        let front = flow.ingest(batch.drop_last());
        lemma_ingest_wf(flow, batch.drop_last());
        lemma_ingest_keeps_nodes(flow, batch.drop_last());
        let entry = batch.last();
        lemma_lookup_sound(flow, entry.0);
        let ix = front.lookup(entry.0).unwrap();
        let after = front.ingest_one(entry);
        lemma_apply_all_no_duplicates(front.outputs[ix].rows, entry.1);
        assert forall|i: int| 0 <= i < after.nodes.len() implies (
        #[trigger] after.outputs[i]).rows.no_duplicates() by {
            if i != ix {
                assert(after.outputs[i] == front.outputs[i]);
            }
        }
    }
}

/// The log grows by exactly the entries of the batch, in submission order.
pub proof fn lemma_ingest_log(flow: FlowView, batch: Seq<EntryView>)
    ensures
        flow.ingest(batch).changes == flow.changes + batch,
    decreases batch.len(),
{
    if batch.len() == 0 {
        assert(flow.changes + batch =~= flow.changes);
    } else {
        lemma_ingest_log(flow, batch.drop_last());
        assert(flow.changes + batch =~= (flow.changes + batch.drop_last()).push(batch.last()));
    }
}

/// Batching invariance: ingesting two batches in one call or in two calls
/// gives the same flow, and the one call is accepted exactly when both of the
/// two are.
pub proof fn lemma_batching_invariance(
    flow: FlowView,
    first: Seq<EntryView>,
    second: Seq<EntryView>,
)
    ensures
        flow.ingest(first + second) == flow.ingest(first).ingest(second),
        flow.batch_error(first + second) is None <==> flow.batch_error(first) is None
            && flow.ingest(first).batch_error(second) is None,
    decreases second.len(),
{
    lemma_ingest_keeps_nodes(flow, first);
    lemma_batch_error_by_nodes(flow, flow.ingest(first), second);
    if second.len() == 0 {
        assert(first + second =~= first);
    } else {
        assert((first + second).drop_last() =~= first + second.drop_last());
        lemma_batching_invariance(flow, first, second.drop_last());
        lemma_batch_error_by_nodes(flow, flow.ingest(first), second.drop_last());
    }
}

/// After an accepted batch every relation holds its former rows changed by
/// the operations that the batch addressed to its node, in order; the node
/// has taken in what it had taken in and those operations; and no column has
/// changed.
pub proof fn lemma_ingest_rows(flow: FlowView, batch: Seq<EntryView>, ix: int)
    requires
        flow.wf(),
        flow.batch_error(batch) is None,
        0 <= ix < flow.nodes.len(),
    ensures
        flow.ingest(batch).outputs[ix].rows == apply_all(
            flow.outputs[ix].rows,
            addressed(flow.nodes, batch, ix),
        ),
        flow.ingest(batch).outputs[ix].fields == flow.outputs[ix].fields,
        flow.ingest(batch).deltas[ix] == flow.deltas[ix] + addressed(flow.nodes, batch, ix),
    decreases batch.len(),
{
    if batch.len() == 0 {
        assert(flow.deltas[ix] + addressed(flow.nodes, batch, ix) =~= flow.deltas[ix]);
    } else {
        let front = flow.ingest(batch.drop_last());
        let entry = batch.last();
        lemma_ingest_rows(flow, batch.drop_last(), ix);
        lemma_ingest_keeps_nodes(flow, batch.drop_last());
        lemma_ingest_wf(flow, batch.drop_last());
        lemma_lookup_sound(flow, entry.0);
        let sofar = addressed(flow.nodes, batch.drop_last(), ix);
        if lookup(flow.nodes, entry.0) == Some(ix) {
            lemma_apply_all_concat(flow.outputs[ix].rows, sofar, entry.1);
            assert(flow.deltas[ix] + (sofar + entry.1) =~= (flow.deltas[ix] + sofar) + entry.1);
        }
    }
}

/// The snapshot taken after an accepted batch shows, for every node, exactly
/// the batch's net effect on it: a row is listed if the last operation
/// addressed to the node about this row is an insert, or if the node held it
/// and no such operation removed it last.
pub proof fn lemma_snapshot_after_ingest(
    flow: FlowView,
    batch: Seq<EntryView>,
    ix: int,
    row: RowView,
)
    requires
        flow.wf(),
        flow.batch_error(batch) is None,
        0 <= ix < flow.nodes.len(),
    ensures
        flow.ingest(batch).snapshot().len() == flow.nodes.len(),
        flow.ingest(batch).snapshot()[ix].0 == flow.nodes[ix].id,
        flow.ingest(batch).snapshot()[ix].1 == as_inserts(
            apply_all(flow.outputs[ix].rows, addressed(flow.nodes, batch, ix)),
        ),
        flow.ingest(batch).snapshot()[ix].1.contains(ChangeView::Insert(row)) == present_after(
            flow.outputs[ix].rows.contains(row),
            addressed(flow.nodes, batch, ix),
            row,
        ),
{
    lemma_ingest_keeps_nodes(flow, batch);
    lemma_ingest_rows(flow, batch, ix);
    let delta = addressed(flow.nodes, batch, ix);
    let rows = apply_all(flow.outputs[ix].rows, delta);
    lemma_apply_all_contains(flow.outputs[ix].rows, delta, row);
    let listed = as_inserts(rows);
    if rows.contains(row) {
        let k = choose|k: int| 0 <= k < rows.len() && rows[k] == row;
        assert(listed[k] == ChangeView::Insert(row));
    }
    if listed.contains(ChangeView::Insert(row)) {
        let k = choose|k: int| 0 <= k < listed.len() && listed[k] == ChangeView::Insert(row);
        assert(rows[k] == row);
    }
}

/// A drain empties the log and touches nothing else, so a second drain right
/// after it finds the log empty; and what is ingested after a drain is
/// exactly what the next drain finds.
pub proof fn lemma_drain(flow: FlowView, batch: Seq<EntryView>)
    ensures
        flow.drained().changes == Seq::<EntryView>::empty(),
        flow.drained().drained() == flow.drained(),
        flow.drained().ingest(batch).changes == batch,
{
    lemma_ingest_log(flow.drained(), batch);
    assert(flow.drained().changes + batch =~= batch);
}

/// Idempotence: inserting a row that the table holds leaves its rows, and so
/// their number, as they were, while the log still records the entry.
pub proof fn lemma_ingest_present_row(flow: FlowView, id: IdView, row: RowView)
    requires
        flow.wf(),
        flow.lookup(id) is Some,
        flow.outputs[flow.lookup(id).unwrap()].rows.contains(row),
    ensures
        flow.ingest(seq![(id, seq![ChangeView::Insert(row)])]).outputs == flow.outputs,
        flow.ingest(seq![(id, seq![ChangeView::Insert(row)])]).changes == flow.changes.push(
            (id, seq![ChangeView::Insert(row)]),
        ),
{
    let entry = (id, seq![ChangeView::Insert(row)]);
    let batch = seq![entry];
    lemma_lookup_sound(flow, id);
    let ix = flow.lookup(id).unwrap();
    assert(batch.drop_last() =~= Seq::empty());
    assert(flow.ingest(batch.drop_last()) == flow);
    assert(flow.ingest(batch) == flow.ingest_one(entry));
    lemma_insert_present(flow.outputs[ix].rows, row);
    assert(flow.ingest(batch).outputs =~= flow.outputs);
}

/// A visit clears the visited node's bit, and a computed node whose delta is
/// empty dirties no other node.
pub proof fn lemma_visit_clears(flow: FlowView, ix: int, delta: ChangesView)
    requires
        flow.wf(),
        0 <= ix < flow.nodes.len(),
    ensures
        !flow.awaits(ix) ==> !flow.pass(ix).dirty[ix],
        !flow.settle(ix, delta).dirty[ix],
        delta.len() == 0 ==> flow.settle(ix, delta).dirty == flow.dirty.update(ix, false),
{
}

/// A visit dirties only nodes behind the visited one, so the nodes that the
/// sweep has left clean stay clean.
pub proof fn lemma_visit_marks_behind(flow: FlowView, ix: int, delta: ChangesView, j: int)
    requires
        flow.wf(),
        0 <= ix < flow.nodes.len(),
        0 <= j < ix,
    ensures
        flow.pass(ix).dirty[j] == flow.dirty[j],
        flow.settle(ix, delta).dirty[j] == flow.dirty[j],
{
    let targets = flow.nodes[ix].downstream;
    if hits(targets, j) {
        let k = choose|k: int| 0 <= k < targets.len() && #[trigger] targets[k] == j;
        assert(ix < flow.nodes[ix].downstream[k]);
    }
}

/// The sweep leaves every node that it has gone past clean: if the nodes
/// before `ix` are clean, then after the visit of `ix` so are the nodes up to
/// and with `ix`.
pub proof fn lemma_visit_clean_below(flow: FlowView, ix: int, delta: ChangesView)
    requires
        flow.wf(),
        0 <= ix < flow.nodes.len(),
        flow.clean_below(ix),
    ensures
        !flow.awaits(ix) ==> flow.pass(ix).clean_below(ix + 1),
        flow.settle(ix, delta).clean_below(ix + 1),
{
    lemma_visit_clears(flow, ix, delta);
    assert forall|j: int| 0 <= j < ix + 1 && j < flow.dirty.len() implies !(
    #[trigger] flow.settle(ix, delta).dirty[j]) by {
        if j < ix {
            lemma_visit_marks_behind(flow, ix, delta, j);
        }
    }
    if !flow.awaits(ix) {
        assert forall|j: int| 0 <= j < ix + 1 && j < flow.dirty.len() implies !(
        #[trigger] flow.pass(ix).dirty[j]) by {
            if j < ix {
                lemma_visit_marks_behind(flow, ix, delta, j);
            }
        }
    }
}

/// Ingestion changes base tables only: after an accepted batch every
/// computed node holds the relation that it held.
pub proof fn lemma_ingest_spares_derived(flow: FlowView, batch: Seq<EntryView>, ix: int)
    requires
        flow.wf(),
        flow.batch_error(batch) is None,
        0 <= ix < flow.nodes.len(),
        flow.nodes[ix].view is Derived,
    ensures
        flow.ingest(batch).outputs[ix] == flow.outputs[ix],
        flow.ingest(batch).dirty[ix] == flow.dirty[ix],
    decreases batch.len(),
{
    if batch.len() > 0 {
        lemma_ingest_spares_derived(flow, batch.drop_last(), ix);
        lemma_ingest_keeps_nodes(flow, batch.drop_last());
        lemma_ingest_wf(flow, batch.drop_last());
        lemma_lookup_sound(flow, batch.last().0);
    }
}

/// A visit keeps the structural invariant, the nodes and the columns, and
/// changes no relation but, when a delta is settled, that of the visited
/// node.
pub proof fn lemma_visit_wf(flow: FlowView, ix: int, delta: ChangesView)
    requires
        flow.wf(),
        0 <= ix < flow.nodes.len(),
    ensures
        flow.pass(ix).wf(),
        flow.pass(ix).nodes == flow.nodes,
        flow.pass(ix).outputs == flow.outputs,
        flow.pass(ix).changes == flow.changes,
        flow.pass(ix).deltas == flow.deltas,
        flow.settle(ix, delta).wf(),
        flow.settle(ix, delta).nodes == flow.nodes,
        flow.settle(ix, delta).changes == flow.changes.push((flow.nodes[ix].id, delta)),
        flow.settle(ix, delta).outputs == flow.outputs.update(
            ix,
            flow.settle(ix, delta).outputs[ix],
        ),
        flow.settle(ix, delta).outputs[ix].fields == flow.outputs[ix].fields,
        flow.settle(ix, delta).outputs[ix].rows == apply_all(flow.outputs[ix].rows, delta),
{
    let settled = flow.settle(ix, delta);
    lemma_apply_all_no_duplicates(flow.outputs[ix].rows, delta);
    assert forall|i: int| 0 <= i < settled.nodes.len() implies (
    #[trigger] settled.outputs[i]).rows.no_duplicates() by {
        if i != ix {
            assert(settled.outputs[i] == flow.outputs[i]);
        }
    }
    assert(settled.outputs =~= flow.outputs.update(ix, settled.outputs[ix]));
}

/// Moving the sweep on keeps the structural invariant and changes neither
/// the nodes, nor a relation, nor the log. It stops at a node from `from` on
/// that awaits its delta, or else leaves every node clean with nothing taken
/// in.
pub proof fn lemma_advance(flow: FlowView, from: int)
    requires
        flow.wf(),
        0 <= from,
    ensures
        flow.advance(from).wf(),
        flow.advance(from).nodes == flow.nodes,
        flow.advance(from).outputs == flow.outputs,
        flow.advance(from).changes == flow.changes,
        match flow.next_awaiting(from) {
            Some(ix) => from <= ix < flow.nodes.len() && flow.advance(from).awaits(ix)
                && flow.advance(from).deltas == flow.deltas,
            None => flow.advance(from) == flow.advance(from).finished(),
        },
    decreases flow.nodes.len() - from,
{
    if from >= flow.nodes.len() {
        let done = flow.finished();
        assert(done.finished().dirty =~= done.dirty);
        assert(done.finished().deltas =~= done.deltas);
    } else if !flow.awaits(from) {
        lemma_visit_wf(flow, from, Seq::empty());
        lemma_advance(flow.pass(from), from + 1);
    }
}

} // verus!
