use runtime::relation::{change_clone, extend_changes, Change, Changes, Relation};
use runtime::value::{row_clone, row_eq, Row};

fn row(fields: &[&str]) -> Row {
    fields.iter().map(|f| f.to_string()).collect()
}

fn people() -> Relation {
    Relation::with_fields(row(&["id", "name"]))
}

#[test]
fn with_fields_is_empty_and_keeps_labels() {
    let r = people();
    assert_eq!(r.len(), 0);
    assert_eq!(r.fields(), &row(&["id", "name"]));
    assert_eq!(r.as_changes(), Vec::<Change>::new());
}

#[test]
fn insert_adds_absent_row() {
    let mut r = people();
    r.change(&vec![Change::Insert(row(&["1", "a"]))]);
    assert_eq!(r.len(), 1);
    assert!(r.contains(&row(&["1", "a"])));
    assert!(!r.contains(&row(&["1", "b"])));
}

#[test]
fn duplicate_insert_is_a_no_op() {
    let mut r = people();
    r.change(&vec![Change::Insert(row(&["1", "a"]))]);
    r.change(&vec![Change::Insert(row(&["1", "a"])), Change::Insert(row(&["1", "a"]))]);
    assert_eq!(r.len(), 1);
    assert_eq!(r.as_changes(), vec![Change::Insert(row(&["1", "a"]))]);
}

#[test]
fn remove_deletes_present_row() {
    let mut r = people();
    r.change(&vec![
        Change::Insert(row(&["1", "a"])),
        Change::Insert(row(&["2", "b"])),
        Change::Insert(row(&["3", "c"])),
    ]);
    r.change(&vec![Change::Remove(row(&["2", "b"]))]);
    assert_eq!(r.len(), 2);
    assert!(!r.contains(&row(&["2", "b"])));
    assert_eq!(
        r.as_changes(),
        vec![Change::Insert(row(&["1", "a"])), Change::Insert(row(&["3", "c"]))]
    );
}

#[test]
fn redundant_remove_is_a_no_op() {
    let mut r = people();
    r.change(&vec![Change::Insert(row(&["1", "a"]))]);
    r.change(&vec![Change::Remove(row(&["9", "z"]))]);
    assert_eq!(r.len(), 1);
    assert!(r.contains(&row(&["1", "a"])));
}

#[test]
fn row_identity_is_full_content() {
    let mut r = people();
    r.change(&vec![Change::Insert(row(&["1", "a"])), Change::Insert(row(&["1", "b"]))]);
    assert_eq!(r.len(), 2);
    r.change(&vec![Change::Remove(row(&["1"]))]);
    assert_eq!(r.len(), 2);
}

#[test]
fn delta_applies_in_order() {
    let mut r = people();
    r.change(&vec![
        Change::Insert(row(&["1", "a"])),
        Change::Remove(row(&["1", "a"])),
        Change::Insert(row(&["2", "b"])),
        Change::Remove(row(&["3", "c"])),
        Change::Insert(row(&["1", "a"])),
    ]);
    assert_eq!(
        r.as_changes(),
        vec![Change::Insert(row(&["2", "b"])), Change::Insert(row(&["1", "a"]))]
    );
}

#[test]
fn net_effect_decides_presence() {
    let mut r = people();
    r.change(&vec![Change::Insert(row(&["1", "a"])), Change::Insert(row(&["2", "b"]))]);
    r.change(&vec![
        Change::Remove(row(&["1", "a"])),
        Change::Insert(row(&["3", "c"])),
        Change::Remove(row(&["3", "c"])),
        Change::Remove(row(&["2", "b"])),
        Change::Insert(row(&["2", "b"])),
    ]);
    assert!(!r.contains(&row(&["1", "a"])));
    assert!(r.contains(&row(&["2", "b"])));
    assert!(!r.contains(&row(&["3", "c"])));
    assert_eq!(r.len(), 1);
}

#[test]
fn applying_in_two_steps_equals_one_step() {
    let first: Changes = vec![Change::Insert(row(&["1", "a"])), Change::Insert(row(&["2", "b"]))];
    let second: Changes = vec![Change::Remove(row(&["1", "a"])), Change::Insert(row(&["3", "c"]))];
    let mut joined = first.clone();
    joined.extend(second.clone());
    let mut one = people();
    one.change(&joined);
    let mut two = people();
    two.change(&first);
    two.change(&second);
    assert_eq!(one.as_changes(), two.as_changes());
}

#[test]
fn snapshot_is_deterministic_and_reads_only() {
    let mut r = people();
    r.change(&vec![Change::Insert(row(&["1", "a"])), Change::Insert(row(&["2", "b"]))]);
    let a = r.as_changes();
    let b = r.as_changes();
    assert_eq!(a, b);
    assert_eq!(r.len(), 2);
}

#[test]
fn empty_delta_changes_nothing() {
    let mut r = people();
    r.change(&vec![Change::Insert(row(&["1", "a"]))]);
    r.change(&Vec::new());
    assert_eq!(r.as_changes(), vec![Change::Insert(row(&["1", "a"]))]);
}

#[test]
fn row_eq_compares_content() {
    assert!(row_eq(&row(&["1", "a"]), &row(&["1", "a"])));
    assert!(!row_eq(&row(&["1", "a"]), &row(&["1", "b"])));
    assert!(!row_eq(&row(&["1", "a"]), &row(&["1"])));
    assert!(row_eq(&row(&[]), &row(&[])));
}

#[test]
fn row_clone_copies_content() {
    assert_eq!(row_clone(&row(&["x", "y", "z"])), row(&["x", "y", "z"]));
    assert_eq!(row_clone(&row(&[])), row(&[]));
}

#[test]
fn change_clone_keeps_operation_and_row() {
    assert_eq!(change_clone(&Change::Insert(row(&["1"]))), Change::Insert(row(&["1"])));
    assert_eq!(change_clone(&Change::Remove(row(&["1"]))), Change::Remove(row(&["1"])));
}

#[test]
fn extend_changes_appends_in_order() {
    let mut into: Changes = vec![Change::Insert(row(&["1"]))];
    extend_changes(&mut into, &vec![Change::Remove(row(&["1"])), Change::Insert(row(&["2"]))]);
    assert_eq!(
        into,
        vec![
            Change::Insert(row(&["1"])),
            Change::Remove(row(&["1"])),
            Change::Insert(row(&["2"])),
        ]
    );
}
