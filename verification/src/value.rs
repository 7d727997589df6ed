//! Identifiers and rows, with their mathematical models.

use vstd::prelude::*;

verus! {

/// An opaque token: the name of a node, a column label, or a field of a row.
pub type Id = String;

/// A row: a tuple of identifiers. Two rows are the same row when their
/// contents are equal.
pub type Row = Vec<Id>;

/// The model of an identifier.
pub type IdView = Seq<char>;

/// The model of a row.
pub type RowView = Seq<Seq<char>>;

/// Compares two rows by content.
pub fn row_eq(a: &Row, b: &Row) -> (same: bool)
    ensures
        same == (a.deep_view() == b.deep_view()),
{
    if a.len() != b.len() {
        assert(a.deep_view().len() != b.deep_view().len());
        return false;
    }
    let mut i: usize = 0;
    while i < a.len()
        invariant
            i <= a.len(),
            a.len() == b.len(),
            forall|j: int| 0 <= j < i ==> a[j]@ == b[j]@,
        decreases a.len() - i,
    {
        if a[i] != b[i] {
            assert(a.deep_view()[i as int] != b.deep_view()[i as int]);
            return false;
        }
        i += 1;
    }
    assert(a.deep_view() =~= b.deep_view());
    true
}

/// Copies a row.
pub fn row_clone(row: &Row) -> (copy: Row)
    ensures
        copy.deep_view() == row.deep_view(),
{
    let mut copy: Row = Vec::new();
    let mut i: usize = 0;
    while i < row.len()
        invariant
            i <= row.len(),
            copy.len() == i,
            forall|j: int| 0 <= j < i ==> copy[j]@ == row[j]@,
        decreases row.len() - i,
    {
        copy.push(row[i].clone());
        i += 1;
    }
    assert(copy.deep_view() =~= row.deep_view());
    copy
}

} // verus!
