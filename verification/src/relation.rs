//! A relation: a set of rows under named columns, changed by deltas.

use vstd::prelude::*;
use crate::value::{Id, Row, RowView, row_eq, row_clone};

verus! {

/// One operation of a delta.
#[derive(Clone, Debug, PartialEq, Eq)]
pub enum Change {
    /// Adds the row if it is absent.
    Insert(Row),
    /// Deletes the row if it is present.
    Remove(Row),
}

/// A delta: operations in the order in which they apply.
pub type Changes = Vec<Change>;

/// The model of a [`Change`].
pub enum ChangeView {
    Insert(RowView),
    Remove(RowView),
}

/// The model of a delta.
pub type ChangesView = Seq<ChangeView>;

impl DeepView for Change {
    type V = ChangeView;

    open spec fn deep_view(&self) -> ChangeView {
        match self {
            Change::Insert(row) => ChangeView::Insert(row.deep_view()),
            Change::Remove(row) => ChangeView::Remove(row.deep_view()),
        }
    }
}

/// Copies one operation.
pub fn change_clone(change: &Change) -> (copy: Change)
    ensures
        copy.deep_view() == change.deep_view(),
{
    match change {
        Change::Insert(row) => Change::Insert(row_clone(row)),
        Change::Remove(row) => Change::Remove(row_clone(row)),
    }
}

/// Appends a copy of every operation of `delta` to `into`.
pub fn extend_changes(into: &mut Changes, delta: &Changes)
    ensures
        final(into).deep_view() == old(into).deep_view() + delta.deep_view(),
{
    let mut i: usize = 0;
    while i < delta.len()
        invariant
            i <= delta.len(),
            into.deep_view() == old(into).deep_view() + delta.deep_view().take(i as int),
        decreases delta.len() - i,
    {
        let ghost before = into.deep_view();
        let copy = change_clone(&delta[i]);
        into.push(copy);
        assert(into.deep_view() =~= before.push(delta[i as int].deep_view()));
        assert(into.deep_view() =~= old(into).deep_view() + delta.deep_view().take(i + 1));
        i += 1;
    }
    assert(delta.deep_view().take(i as int) =~= delta.deep_view());
}

/// The rows after one operation: an insert appends an absent row, a remove
/// takes a present row out, and every other row keeps its place.
pub open spec fn apply_one(rows: Seq<RowView>, change: ChangeView) -> Seq<RowView> {
    match change {
        ChangeView::Insert(row) => if rows.contains(row) {
            rows
        } else {
            rows.push(row)
        },
        ChangeView::Remove(row) => if rows.contains(row) {
            rows.remove(rows.index_of(row))
        } else {
            rows
        },
    }
}

/// The rows after every operation of a delta, first to last.
pub open spec fn apply_all(rows: Seq<RowView>, delta: ChangesView) -> Seq<RowView>
    decreases delta.len(),
{
    if delta.len() == 0 {
        rows
    } else {
        apply_one(apply_all(rows, delta.drop_last()), delta.last())
    }
}

/// The delta that describes `rows` as a full state: one insert per row.
pub open spec fn as_inserts(rows: Seq<RowView>) -> ChangesView {
    Seq::new(rows.len(), |i: int| ChangeView::Insert(rows[i]))
}

/// One operation keeps a sequence of rows free of repetitions.
pub proof fn lemma_apply_one_no_duplicates(rows: Seq<RowView>, change: ChangeView)
    requires
        rows.no_duplicates(),
    ensures
        apply_one(rows, change).no_duplicates(),
{
    match change {
        ChangeView::Insert(row) => {
            if !rows.contains(row) {
                assert forall|i: int, j: int|
                    0 <= i < rows.push(row).len() && 0 <= j < rows.push(row).len() && i != j implies rows.push(
                    row,
                )[i] != rows.push(row)[j] by {
                    if i < rows.len() {
                        assert(rows.contains(rows[i]));
                    }
                    if j < rows.len() {
                        assert(rows.contains(rows[j]));
                    }
                }
            }
        },
        ChangeView::Remove(row) => {
            if rows.contains(row) {
                let k = rows.index_of(row);
                let after = rows.remove(k);
                assert forall|i: int, j: int|
                    0 <= i < after.len() && 0 <= j < after.len() && i != j implies after[i]
                    != after[j] by {
                    let si = if i < k { i } else { i + 1 };
                    let sj = if j < k { j } else { j + 1 };
                    assert(after[i] == rows[si]);
                    assert(after[j] == rows[sj]);
                }
            }
        },
    }
}

/// A delta keeps a sequence of rows free of repetitions.
pub proof fn lemma_apply_all_no_duplicates(rows: Seq<RowView>, delta: ChangesView)
    requires
        rows.no_duplicates(),
    ensures
        apply_all(rows, delta).no_duplicates(),
    decreases delta.len(),
{
    if delta.len() > 0 {
        lemma_apply_all_no_duplicates(rows, delta.drop_last());
        lemma_apply_one_no_duplicates(apply_all(rows, delta.drop_last()), delta.last());
    }
}

/// Applying two deltas one after the other is applying them joined.
pub proof fn lemma_apply_all_concat(rows: Seq<RowView>, first: ChangesView, second: ChangesView)
    ensures
        apply_all(rows, first + second) == apply_all(apply_all(rows, first), second),
    decreases second.len(),
{
    if second.len() == 0 {
        assert(first + second =~= first);
    } else {
        assert((first + second).drop_last() =~= first + second.drop_last());
        lemma_apply_all_concat(rows, first, second.drop_last());
    }
}

/// Whether `row` is present after a delta, given whether it was before: the
/// last operation of the delta on this row decides; if there is none, nothing
/// has changed for it.
pub open spec fn present_after(was: bool, delta: ChangesView, row: RowView) -> bool
    decreases delta.len(),
{
    if delta.len() == 0 {
        was
    } else {
        match delta.last() {
            ChangeView::Insert(r) if r == row => true,
            ChangeView::Remove(r) if r == row => false,
            _ => present_after(was, delta.drop_last(), row),
        }
    }
}

/// One operation decides the presence of its own row and of no other.
pub proof fn lemma_apply_one_contains(rows: Seq<RowView>, change: ChangeView, row: RowView)
    requires
        rows.no_duplicates(),
    ensures
        apply_one(rows, change).contains(row) == match change {
            ChangeView::Insert(r) => r == row || rows.contains(row),
            ChangeView::Remove(r) => r != row && rows.contains(row),
        },
{
    let after = apply_one(rows, change);
    match change {
        ChangeView::Insert(r) => {
            if !rows.contains(r) {
                assert(after[rows.len() as int] == r);
                if rows.contains(row) {
                    let k = choose|k: int| 0 <= k < rows.len() && rows[k] == row;
                    assert(after[k] == row);
                }
                if after.contains(row) {
                    let k = choose|k: int| 0 <= k < after.len() && after[k] == row;
                    if k < rows.len() {
                        assert(rows[k] == row);
                    }
                }
            }
        },
        ChangeView::Remove(r) => {
            if rows.contains(r) {
                let at = rows.index_of(r);
                if after.contains(row) {
                    let k = choose|k: int| 0 <= k < after.len() && after[k] == row;
                    let from = if k < at { k } else { k + 1 };
                    assert(rows[from] == row);
                }
                if rows.contains(row) && r != row {
                    let k = choose|k: int| 0 <= k < rows.len() && rows[k] == row;
                    let to = if k < at { k } else { k - 1 };
                    assert(after[to] == row);
                }
            }
        },
    }
}

/// After a delta a relation holds exactly the rows that the delta's net
/// effect leaves: those inserted and not removed afterwards, and those held
/// before that the delta did not remove last.
pub proof fn lemma_apply_all_contains(rows: Seq<RowView>, delta: ChangesView, row: RowView)
    requires
        rows.no_duplicates(),
    ensures
        apply_all(rows, delta).contains(row) == present_after(rows.contains(row), delta, row),
    decreases delta.len(),
{
    if delta.len() > 0 {
        lemma_apply_all_contains(rows, delta.drop_last(), row);
        lemma_apply_all_no_duplicates(rows, delta.drop_last());
        lemma_apply_one_contains(apply_all(rows, delta.drop_last()), delta.last(), row);
    }
}

/// Inserting a row that is present changes nothing: neither the rows nor
/// their number.
pub proof fn lemma_insert_present(rows: Seq<RowView>, row: RowView)
    requires
        rows.contains(row),
    ensures
        apply_one(rows, ChangeView::Insert(row)) == rows,
        apply_all(rows, seq![ChangeView::Insert(row)]) == rows,
{
    let delta = seq![ChangeView::Insert(row)];
    assert(delta.drop_last() =~= Seq::empty());
    assert(apply_all(rows, delta.drop_last()) == rows);
}

/// Removing a row that is absent changes nothing.
pub proof fn lemma_remove_absent(rows: Seq<RowView>, row: RowView)
    requires
        !rows.contains(row),
    ensures
        apply_one(rows, ChangeView::Remove(row)) == rows,
        apply_all(rows, seq![ChangeView::Remove(row)]) == rows,
{
    let delta = seq![ChangeView::Remove(row)];
    assert(delta.drop_last() =~= Seq::empty());
    assert(apply_all(rows, delta.drop_last()) == rows);
}

/// The model of a [`Relation`].
pub struct RelationView {
    /// The column labels, in order.
    pub fields: Seq<Seq<char>>,
    /// The rows, oldest first; no row occurs twice.
    pub rows: Seq<RowView>,
}

/// A set of rows under an ordered list of column labels.
#[derive(Clone, Debug)]
pub struct Relation {
    fields: Vec<Id>,
    rows: Vec<Row>,
}

impl View for Relation {
    type V = RelationView;

    closed spec fn view(&self) -> RelationView {
        RelationView { fields: self.fields.deep_view(), rows: self.rows.deep_view() }
    }
}

impl DeepView for Relation {
    type V = RelationView;

    open spec fn deep_view(&self) -> RelationView {
        self@
    }
}

impl Relation {
    /// No row occurs twice.
    pub open spec fn wf(&self) -> bool {
        self@.rows.no_duplicates()
    }

    /// An empty relation with the given column labels.
    pub fn with_fields(fields: Vec<Id>) -> (relation: Relation)
        ensures
            relation.wf(),
            relation@.fields == fields.deep_view(),
            relation@.rows == Seq::<RowView>::empty(),
    {
        let relation = Relation { fields, rows: Vec::new() };
        assert(relation.rows.deep_view() =~= Seq::<RowView>::empty());
        relation
    }

    /// The position of `row` among the rows, if it is present.
    fn position(&self, row: &Row) -> (found: Option<usize>)
        ensures
            match found {
                Some(k) => k < self@.rows.len() && self@.rows[k as int] == row.deep_view(),
                None => !self@.rows.contains(row.deep_view()),
            },
    {
        let mut k: usize = 0;
        while k < self.rows.len()
            invariant
                k <= self.rows.len(),
                forall|j: int| 0 <= j < k ==> self.rows.deep_view()[j] != row.deep_view(),
            decreases self.rows.len() - k,
        {
            if row_eq(&self.rows[k], row) {
                return Some(k);
            }
            k += 1;
        }
        None
    }

    /// Applies one operation.
    fn change_one(&mut self, change: &Change)
        requires
            old(self).wf(),
        ensures
            final(self).wf(),
            final(self)@.fields == old(self)@.fields,
            final(self)@.rows == apply_one(old(self)@.rows, change.deep_view()),
    {
        proof {
            lemma_apply_one_no_duplicates(self@.rows, change.deep_view());
        }
        let ghost before = self.rows.deep_view();
        match change {
            Change::Insert(row) => {
                if self.position(row).is_none() {
                    self.rows.push(row_clone(row));
                    assert(self.rows.deep_view() =~= before.push(row.deep_view()));
                }
            },
            Change::Remove(row) => {
                match self.position(row) {
                    Some(k) => {
                        assert(before.contains(row.deep_view()));
                        assert(before.index_of(row.deep_view()) == k as int);
                        self.rows.remove(k);
                        assert(self.rows.deep_view() =~= before.remove(k as int));
                    },
                    None => {},
                }
            },
        }
    }

    /// Applies a delta, operation by operation. Inserting a present row and
    /// removing an absent one change nothing.
    pub fn change(&mut self, changes: &Changes)
        requires
            old(self).wf(),
        ensures
            final(self).wf(),
            final(self)@.fields == old(self)@.fields,
            final(self)@.rows == apply_all(old(self)@.rows, changes.deep_view()),
    {
        let mut i: usize = 0;
        while i < changes.len()
            invariant
                i <= changes.len(),
                self.wf(),
                self@.fields == old(self)@.fields,
                self@.rows == apply_all(old(self)@.rows, changes.deep_view().take(i as int)),
            decreases changes.len() - i,
        {
            assert(changes.deep_view().take(i + 1).drop_last() =~= changes.deep_view().take(
                i as int,
            ));
            self.change_one(&changes[i]);
            i += 1;
        }
        assert(changes.deep_view().take(i as int) =~= changes.deep_view());
    }

    /// The number of rows.
    pub fn len(&self) -> (n: usize)
        ensures
            n == self@.rows.len(),
    {
        self.rows.len()
    }

    /// Whether `row` is one of the rows.
    pub fn contains(&self, row: &Row) -> (held: bool)
        ensures
            held == self@.rows.contains(row.deep_view()),
    {
        self.position(row).is_some()
    }

    /// The column labels, in order.
    pub fn fields(&self) -> (fields: &Vec<Id>)
        ensures
            fields.deep_view() == self@.fields,
    {
        &self.fields
    }

    /// The full state as a delta: every row as an insert, oldest first.
    pub fn as_changes(&self) -> (changes: Changes)
        ensures
            changes.deep_view() == as_inserts(self@.rows),
    {
        let mut changes: Changes = Vec::new();
        let mut i: usize = 0;
        while i < self.rows.len()
            invariant
                i <= self.rows.len(),
                changes.len() == i,
                forall|j: int|
                    0 <= j < i ==> changes[j].deep_view() == ChangeView::Insert(
                        self.rows[j].deep_view(),
                    ),
            decreases self.rows.len() - i,
        {
            changes.push(Change::Insert(row_clone(&self.rows[i])));
            i += 1;
        }
        assert(changes.deep_view() =~= as_inserts(self@.rows));
        changes
    }
}

} // verus!
