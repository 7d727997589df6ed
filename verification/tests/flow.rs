use runtime::error::FlowError;
use runtime::flow::{Changes, Flow, Schema};
use runtime::node::{Derived, Table, ViewKind};
use runtime::relation::{self, change_clone, Change};
use runtime::value::Row;
use std::cell::Cell;

fn row(fields: &[&str]) -> Row {
    fields.iter().map(|f| f.to_string()).collect()
}

fn ids(names: &[&str]) -> Vec<String> {
    names.iter().map(|f| f.to_string()).collect()
}

fn schema(tables: &[(&str, &[&str], &[&str])]) -> Schema {
    tables.iter().map(|(id, unique, other)| (id.to_string(), ids(unique), ids(other))).collect()
}

fn one_table() -> Flow {
    Flow::new(&schema(&[("t", &["id"], &["name"])]))
}

fn two_tables() -> Flow {
    Flow::new(&schema(&[("t", &["id"], &["name"]), ("u", &["k"], &[])]))
}

fn insert(id: &str, fields: &[&str]) -> (String, relation::Changes) {
    (id.to_string(), vec![Change::Insert(row(fields))])
}

/// Hands every computed node what its first upstream node took in.
fn copy_first_upstream(flow: &Flow, ix: usize) -> relation::Changes {
    let up = flow.node(ix).upstream[0];
    flow.delta(up).iter().map(change_clone).collect()
}

fn nothing(_flow: &Flow, _ix: usize) -> relation::Changes {
    Vec::new()
}

/// t -> d1 -> d2
fn chain() -> Flow {
    let mut flow = one_table();
    assert_eq!(flow.add_derived("d1".to_string(), Derived::Union, vec![0], ids(&["id", "name"])), Some(1));
    assert_eq!(flow.add_derived("d2".to_string(), Derived::Union, vec![1], ids(&["id", "name"])), Some(2));
    flow
}

#[test]
fn example_single_table_roundtrip() {
    let mut flow = one_table();
    assert_eq!(flow.change(vec![insert("t", &["1", "a"])]), Ok(()));
    assert_eq!(flow.as_changes(), vec![insert("t", &["1", "a"])]);
    assert_eq!(flow.take_changes(), vec![insert("t", &["1", "a"])]);
    assert_eq!(flow.take_changes(), Changes::new());
}

#[test]
fn new_builds_one_table_per_schema_entry() {
    let flow = Flow::new(&schema(&[
        ("a", &["x"], &["y", "z"]),
        ("b", &[], &["w"]),
        ("c", &["k"], &[]),
    ]));
    assert_eq!(flow.len(), 3);
    for (ix, id) in ["a", "b", "c"].iter().enumerate() {
        assert_eq!(flow.get_ix(id), Some(ix));
        assert_eq!(flow.node(ix).id, *id);
        assert_eq!(flow.node(ix).view, ViewKind::Table(Table));
        assert!(flow.node(ix).upstream.is_empty());
        assert!(flow.node(ix).downstream.is_empty());
        assert_eq!(flow.output(ix).len(), 0);
        assert!(!flow.is_dirty(ix));
        assert!(flow.delta(ix).is_empty());
    }
    assert_eq!(flow.output(0).fields(), &ids(&["x", "y", "z"]));
    assert_eq!(flow.output(1).fields(), &ids(&["w"]));
    assert_eq!(flow.output(2).fields(), &ids(&["k"]));
}

#[test]
fn new_from_empty_schema_has_no_nodes() {
    let mut flow = Flow::new(&Schema::new());
    assert_eq!(flow.len(), 0);
    assert_eq!(flow.as_changes(), Changes::new());
    assert_eq!(flow.take_changes(), Changes::new());
    assert_eq!(flow.get_ix("t"), None);
    flow.propagate(nothing);
    assert_eq!(flow.len(), 0);
}

#[test]
fn get_ix_of_absent_name_is_none() {
    let flow = two_tables();
    assert_eq!(flow.get_ix("t"), Some(0));
    assert_eq!(flow.get_ix("u"), Some(1));
    assert_eq!(flow.get_ix("v"), None);
    assert_eq!(flow.get_ix(""), None);
}

#[test]
fn get_ix_resolves_a_repeated_name_to_the_first_node() {
    let flow = Flow::new(&schema(&[("t", &["a"], &[]), ("t", &["b"], &[])]));
    assert_eq!(flow.len(), 2);
    assert_eq!(flow.get_ix("t"), Some(0));
}

#[test]
fn ingest_applies_marks_and_logs() {
    let mut flow = two_tables();
    assert_eq!(flow.change(vec![insert("u", &["7"])]), Ok(()));
    assert!(flow.output(1).contains(&row(&["7"])));
    assert_eq!(flow.output(0).len(), 0);
    assert!(flow.is_dirty(1));
    assert!(!flow.is_dirty(0));
    assert_eq!(flow.delta(1), &vec![Change::Insert(row(&["7"]))]);
    assert_eq!(flow.take_changes(), vec![insert("u", &["7"])]);
}

#[test]
fn ingest_keeps_submission_order_across_calls() {
    let mut flow = two_tables();
    assert_eq!(flow.change(vec![insert("u", &["1"]), insert("t", &["1", "a"])]), Ok(()));
    assert_eq!(flow.change(vec![insert("u", &["1"]), insert("u", &["2"])]), Ok(()));
    assert_eq!(
        flow.take_changes(),
        vec![
            insert("u", &["1"]),
            insert("t", &["1", "a"]),
            insert("u", &["1"]),
            insert("u", &["2"]),
        ]
    );
}

#[test]
fn batching_invariance() {
    let first = || vec![insert("t", &["1", "a"]), insert("u", &["1"])];
    let second = || {
        vec![
            ("t".to_string(), vec![Change::Remove(row(&["1", "a"])), Change::Insert(row(&["2", "b"]))]),
            insert("u", &["2"]),
        ]
    };
    let mut one = two_tables();
    let mut joined = first();
    joined.extend(second());
    assert_eq!(one.change(joined), Ok(()));
    let mut two = two_tables();
    assert_eq!(two.change(first()), Ok(()));
    assert_eq!(two.change(second()), Ok(()));
    assert_eq!(one.as_changes(), two.as_changes());
    assert_eq!(one.take_changes(), two.take_changes());
    assert_eq!(
        one.as_changes(),
        vec![
            ("t".to_string(), vec![Change::Insert(row(&["2", "b"]))]),
            ("u".to_string(), vec![Change::Insert(row(&["1"])), Change::Insert(row(&["2"]))]),
        ]
    );
}

#[test]
fn snapshot_reflects_net_rows_per_node() {
    let mut flow = two_tables();
    assert_eq!(
        flow.change(vec![
            insert("t", &["1", "a"]),
            insert("u", &["1"]),
            ("t".to_string(), vec![Change::Remove(row(&["1", "a"]))]),
            insert("t", &["2", "b"]),
            ("u".to_string(), vec![Change::Remove(row(&["9"]))]),
        ]),
        Ok(())
    );
    assert_eq!(
        flow.as_changes(),
        vec![
            ("t".to_string(), vec![Change::Insert(row(&["2", "b"]))]),
            ("u".to_string(), vec![Change::Insert(row(&["1"]))]),
        ]
    );
}

#[test]
fn snapshot_does_not_touch_log_or_dirty_set() {
    let mut flow = one_table();
    assert_eq!(flow.change(vec![insert("t", &["1", "a"])]), Ok(()));
    let a = flow.as_changes();
    let b = flow.as_changes();
    assert_eq!(a, b);
    assert!(flow.is_dirty(0));
    assert_eq!(flow.take_changes(), vec![insert("t", &["1", "a"])]);
}

#[test]
fn snapshot_lists_every_node_even_untouched() {
    let mut flow = two_tables();
    assert_eq!(flow.change(vec![insert("u", &["1"])]), Ok(()));
    assert_eq!(
        flow.as_changes(),
        vec![("t".to_string(), vec![]), ("u".to_string(), vec![Change::Insert(row(&["1"]))])]
    );
}

#[test]
fn drain_returns_what_was_recorded_since_the_last_drain() {
    let mut flow = one_table();
    assert_eq!(flow.take_changes(), Changes::new());
    assert_eq!(flow.change(vec![insert("t", &["1", "a"])]), Ok(()));
    assert_eq!(flow.take_changes(), vec![insert("t", &["1", "a"])]);
    assert_eq!(flow.take_changes(), Changes::new());
    assert_eq!(flow.change(vec![insert("t", &["2", "b"])]), Ok(()));
    assert_eq!(flow.take_changes(), vec![insert("t", &["2", "b"])]);
    assert_eq!(flow.output(0).len(), 2);
}

#[test]
fn inserting_a_present_row_keeps_the_count_and_is_logged() {
    let mut flow = one_table();
    assert_eq!(flow.change(vec![insert("t", &["1", "a"])]), Ok(()));
    assert_eq!(flow.output(0).len(), 1);
    assert_eq!(flow.change(vec![insert("t", &["1", "a"])]), Ok(()));
    assert_eq!(flow.output(0).len(), 1);
    assert_eq!(flow.take_changes(), vec![insert("t", &["1", "a"]), insert("t", &["1", "a"])]);
}

#[test]
fn ingest_on_unknown_node_fails_and_changes_nothing() {
    let mut flow = two_tables();
    assert_eq!(flow.change(vec![insert("t", &["1", "a"])]), Ok(()));
    flow.take_changes();
    flow.propagate(nothing);
    let before = flow.as_changes();
    assert_eq!(flow.change(vec![insert("nope", &["1"])]), Err(FlowError::UnknownNode));
    assert_eq!(flow.as_changes(), before);
    assert_eq!(flow.take_changes(), Changes::new());
    assert!(!flow.is_dirty(0));
    assert!(!flow.is_dirty(1));
}

#[test]
fn a_refused_entry_refuses_the_whole_batch() {
    let mut flow = two_tables();
    assert_eq!(
        flow.change(vec![insert("t", &["1", "a"]), insert("nope", &["1"]), insert("u", &["1"])]),
        Err(FlowError::UnknownNode)
    );
    assert_eq!(flow.output(0).len(), 0);
    assert_eq!(flow.output(1).len(), 0);
    assert!(!flow.is_dirty(0));
    assert!(flow.delta(0).is_empty());
    assert_eq!(flow.take_changes(), Changes::new());
}

#[test]
fn ingest_on_a_computed_node_is_an_invalid_target() {
    let mut flow = chain();
    assert_eq!(flow.change(vec![insert("d1", &["1", "a"])]), Err(FlowError::InvalidTarget));
    assert_eq!(flow.output(1).len(), 0);
    assert_eq!(flow.take_changes(), Changes::new());
}

#[test]
fn the_first_refused_entry_names_the_fault() {
    let mut flow = chain();
    assert_eq!(
        flow.change(vec![insert("d1", &["1", "a"]), insert("nope", &["1"])]),
        Err(FlowError::InvalidTarget)
    );
    assert_eq!(
        flow.change(vec![insert("nope", &["1"]), insert("d1", &["1", "a"])]),
        Err(FlowError::UnknownNode)
    );
}

#[test]
fn empty_batch_is_accepted_and_changes_nothing() {
    let mut flow = one_table();
    assert_eq!(flow.change(Changes::new()), Ok(()));
    assert!(!flow.is_dirty(0));
    assert_eq!(flow.take_changes(), Changes::new());
}

#[test]
fn error_messages() {
    assert_eq!(FlowError::UnknownNode.message(), "unknown node");
    assert_eq!(FlowError::InvalidTarget.message(), "invalid target");
}

#[test]
fn add_derived_mirrors_edges() {
    let mut flow = two_tables();
    assert_eq!(flow.add_derived("j".to_string(), Derived::Join, vec![0, 1], ids(&["id"])), Some(2));
    assert_eq!(flow.add_derived("a".to_string(), Derived::Aggregate, vec![2, 0], ids(&["n"])), Some(3));
    assert_eq!(flow.len(), 4);
    assert_eq!(flow.node(0).downstream, vec![2, 3]);
    assert_eq!(flow.node(1).downstream, vec![2]);
    assert_eq!(flow.node(2).downstream, vec![3]);
    assert_eq!(flow.node(2).upstream, vec![0, 1]);
    assert_eq!(flow.node(2).view, ViewKind::Derived(Derived::Join));
    assert_eq!(flow.node(3).upstream, vec![2, 0]);
    assert_eq!(flow.node(3).view, ViewKind::Derived(Derived::Aggregate));
    assert!(flow.node(3).downstream.is_empty());
    assert_eq!(flow.get_ix("j"), Some(2));
    assert_eq!(flow.output(3).fields(), &ids(&["n"]));
    assert!(!flow.is_dirty(2));
}

#[test]
fn add_derived_with_a_repeated_upstream_records_one_edge() {
    let mut flow = one_table();
    assert_eq!(flow.add_derived("s".to_string(), Derived::Join, vec![0, 0], ids(&["id"])), Some(1));
    assert_eq!(flow.node(0).downstream, vec![1]);
    assert_eq!(flow.node(1).upstream, vec![0, 0]);
}

#[test]
fn add_derived_refuses_a_taken_name() {
    let mut flow = two_tables();
    assert_eq!(flow.add_derived("t".to_string(), Derived::Union, vec![0], ids(&["id"])), None);
    assert_eq!(flow.len(), 2);
    assert!(flow.node(0).downstream.is_empty());
}

#[test]
fn add_derived_refuses_an_edge_that_could_close_a_cycle() {
    let mut flow = two_tables();
    assert_eq!(flow.add_derived("d".to_string(), Derived::Union, vec![2], ids(&["id"])), None);
    assert_eq!(flow.add_derived("d".to_string(), Derived::Union, vec![0, 5], ids(&["id"])), None);
    assert_eq!(flow.len(), 2);
    assert!(flow.node(0).downstream.is_empty());
    assert_eq!(flow.get_ix("d"), None);
}

#[test]
fn propagate_brings_computed_nodes_up_to_date() {
    let mut flow = chain();
    assert_eq!(flow.change(vec![insert("t", &["1", "a"])]), Ok(()));
    flow.propagate(copy_first_upstream);
    assert_eq!(
        flow.as_changes(),
        vec![insert("t", &["1", "a"]), insert("d1", &["1", "a"]), insert("d2", &["1", "a"])]
    );
    assert_eq!(
        flow.take_changes(),
        vec![insert("t", &["1", "a"]), insert("d1", &["1", "a"]), insert("d2", &["1", "a"])]
    );
    for ix in 0..3 {
        assert!(!flow.is_dirty(ix));
        assert!(flow.delta(ix).is_empty());
    }
}

#[test]
fn propagate_visits_each_dirty_node_once() {
    let mut flow = two_tables();
    assert_eq!(flow.add_derived("j".to_string(), Derived::Join, vec![0, 1], ids(&["id"])), Some(2));
    assert_eq!(flow.add_derived("a".to_string(), Derived::Aggregate, vec![0, 2], ids(&["id"])), Some(3));
    assert_eq!(flow.change(vec![insert("t", &["1", "a"]), insert("u", &["1"])]), Ok(()));
    let calls = Cell::new(Vec::new());
    flow.propagate(|f: &Flow, ix: usize| {
        let mut seen = calls.take();
        seen.push(ix);
        calls.set(seen);
        copy_first_upstream(f, ix)
    });
    assert_eq!(calls.take(), vec![2, 3]);
}

#[test]
fn propagate_skips_clean_nodes() {
    let mut flow = two_tables();
    assert_eq!(flow.add_derived("dt".to_string(), Derived::Union, vec![0], ids(&["id"])), Some(2));
    assert_eq!(flow.add_derived("du".to_string(), Derived::Union, vec![1], ids(&["k"])), Some(3));
    assert_eq!(flow.change(vec![insert("u", &["1"])]), Ok(()));
    let calls = Cell::new(Vec::new());
    flow.propagate(|f: &Flow, ix: usize| {
        let mut seen = calls.take();
        seen.push(ix);
        calls.set(seen);
        copy_first_upstream(f, ix)
    });
    assert_eq!(calls.take(), vec![3]);
    assert_eq!(flow.output(2).len(), 0);
    assert_eq!(flow.output(3).len(), 1);
    assert_eq!(flow.take_changes(), vec![insert("u", &["1"]), insert("du", &["1"])]);
}

#[test]
fn an_empty_delta_does_not_dirty_downstream() {
    let mut flow = chain();
    assert_eq!(flow.change(vec![insert("t", &["1", "a"])]), Ok(()));
    let calls = Cell::new(Vec::new());
    flow.propagate(|_f: &Flow, ix: usize| {
        let mut seen = calls.take();
        seen.push(ix);
        calls.set(seen);
        Vec::new()
    });
    assert_eq!(calls.take(), vec![1]);
    assert_eq!(flow.output(1).len(), 0);
    assert_eq!(flow.output(2).len(), 0);
    assert_eq!(
        flow.take_changes(),
        vec![insert("t", &["1", "a"]), ("d1".to_string(), vec![])]
    );
    for ix in 0..3 {
        assert!(!flow.is_dirty(ix));
    }
}

#[test]
fn propagate_without_input_calls_no_transform() {
    let mut flow = chain();
    let calls = Cell::new(0);
    flow.propagate(|_f: &Flow, _ix: usize| {
        calls.set(calls.get() + 1);
        Vec::new()
    });
    assert_eq!(calls.get(), 0);
    assert_eq!(flow.take_changes(), Changes::new());
}

#[test]
fn propagate_leaves_tables_as_ingestion_made_them() {
    let mut flow = chain();
    assert_eq!(flow.change(vec![insert("t", &["1", "a"]), insert("t", &["2", "b"])]), Ok(()));
    let before = flow.output(0).as_changes();
    flow.propagate(nothing);
    assert_eq!(flow.output(0).as_changes(), before);
}

#[test]
fn a_second_sweep_sees_only_new_input() {
    let mut flow = chain();
    assert_eq!(flow.change(vec![insert("t", &["1", "a"])]), Ok(()));
    flow.propagate(copy_first_upstream);
    flow.take_changes();
    assert_eq!(flow.change(vec![("t".to_string(), vec![Change::Remove(row(&["1", "a"]))])]), Ok(()));
    flow.propagate(copy_first_upstream);
    assert_eq!(
        flow.take_changes(),
        vec![
            ("t".to_string(), vec![Change::Remove(row(&["1", "a"]))]),
            ("d1".to_string(), vec![Change::Remove(row(&["1", "a"]))]),
            ("d2".to_string(), vec![Change::Remove(row(&["1", "a"]))]),
        ]
    );
    assert_eq!(flow.output(2).len(), 0);
}

#[test]
fn the_sweep_can_be_driven_step_by_step() {
    let mut flow = chain();
    assert_eq!(flow.change(vec![insert("t", &["1", "a"])]), Ok(()));
    assert!(!flow.awaits(0));
    assert!(!flow.awaits(1));
    assert_eq!(flow.advance(0), Some(1));
    assert!(flow.awaits(1));
    assert!(!flow.is_dirty(0));
    flow.settle(1, vec![Change::Insert(row(&["1", "a"]))]);
    assert!(!flow.is_dirty(1));
    assert!(flow.is_dirty(2));
    assert_eq!(flow.delta(1), &vec![Change::Insert(row(&["1", "a"]))]);
    assert_eq!(flow.advance(2), Some(2));
    flow.settle(2, Vec::new());
    assert_eq!(flow.advance(3), None);
    assert!(flow.delta(0).is_empty());
    assert!(flow.delta(1).is_empty());
    assert_eq!(
        flow.take_changes(),
        vec![insert("t", &["1", "a"]), insert("d1", &["1", "a"]), ("d2".to_string(), vec![])]
    );
    assert_eq!(flow.output(1).len(), 1);
    assert_eq!(flow.output(2).len(), 0);
}

#[test]
fn awaits_is_false_beyond_the_nodes() {
    let flow = chain();
    assert!(!flow.awaits(3));
    assert!(!flow.awaits(usize::MAX));
}

#[test]
fn distinct_schema_names_give_unique_ids() {
    let mut flow = two_tables();
    assert!(flow.has_unique_ids());
    assert_eq!(flow.add_derived("j".to_string(), Derived::Join, vec![0, 1], ids(&["id"])), Some(2));
    assert!(flow.has_unique_ids());
    assert!(Flow::new(&Schema::new()).has_unique_ids());
}

#[test]
fn a_repeated_schema_name_is_detected() {
    let flow = Flow::new(&schema(&[("t", &["a"], &[]), ("u", &[], &[]), ("t", &["b"], &[])]));
    assert_eq!(flow.len(), 3);
    assert!(!flow.has_unique_ids());
}
