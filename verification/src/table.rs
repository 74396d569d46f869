//! Base tables.
//!
//! A table is a named base relation: an ordered list of columns, a
//! primary-key column, and the live rows.  Its invariant is that every
//! row has the schema's arity and column kinds and that no two live
//! rows share a primary-key value.  Every successful mutation advances
//! a per-table sequence number (saturating at the machine limit, which
//! no real workload reaches).

use vstd::prelude::*;

use crate::value::{kind_ok, val_eq, DataType, Kind, Val};

verus! {

/// One column of a table schema: a name and a declared kind.
pub struct ColumnDef {
    pub name: String,
    pub kind: Kind,
}

/// Mathematical abstraction of a column definition.
#[verifier::ext_equal]
pub struct ColModel {
    pub name: Seq<char>,
    pub kind: Kind,
}

impl View for ColumnDef {
    type V = ColModel;

    open spec fn view(&self) -> ColModel {
        ColModel { name: self.name@, kind: self.kind }
    }
}

impl DeepView for ColumnDef {
    type V = ColModel;

    open spec fn deep_view(&self) -> ColModel {
        self.view()
    }
}

impl ColumnDef {
    /// An exact copy of the column definition.
    pub fn duplicate(&self) -> (r: ColumnDef)
        ensures
            r@ == self@,
    {
        ColumnDef { name: self.name.clone(), kind: self.kind }
    }
}

/// An exact copy of a column list.
pub fn clone_cols(cols: &Vec<ColumnDef>) -> (r: Vec<ColumnDef>)
    ensures
        r.deep_view() == cols.deep_view(),
{
    let mut out: Vec<ColumnDef> = Vec::new();
    let mut i: usize = 0;
    while i < cols.len()
        invariant
            i <= cols.len(),
            out.len() == i,
            forall|j: int| 0 <= j < i ==> out.deep_view()[j] == cols.deep_view()[j],
        decreases cols.len() - i,
    {
        out.push(cols[i].duplicate());
        i = i + 1;
    }
    proof {
        assert(out.deep_view() =~= cols.deep_view());
    }
    out
}

/// Mathematical abstraction of a table.
#[verifier::ext_equal]
pub struct TableModel {
    pub name: Seq<char>,
    pub cols: Seq<ColModel>,
    pub pk: int,
    pub rows: Seq<Seq<Val>>,
    pub seq_no: int,
}

/// A base table: schema plus live rows.
pub struct Table {
    pub name: String,
    pub columns: Vec<ColumnDef>,
    pub primary_key: usize,
    pub rows: Vec<Vec<DataType>>,
    pub seq_no: u64,
}

impl View for Table {
    type V = TableModel;

    open spec fn view(&self) -> TableModel {
        TableModel {
            name: self.name@,
            cols: self.columns.deep_view(),
            pk: self.primary_key as int,
            rows: self.rows.deep_view(),
            seq_no: self.seq_no as int,
        }
    }
}

/// Whether a row belongs to the group identified by the value `k` in
/// column `col`.
pub open spec fn row_matches(r: Seq<Val>, col: int, k: Val) -> bool {
    0 <= col < r.len() && r[col] == k
}

/// The predicate of `row_matches`, as a function value, so that every
/// use of `Seq::filter` below sees the same closure.
pub open spec fn match_pred(col: int, k: Val) -> spec_fn(Seq<Val>) -> bool {
    |r: Seq<Val>| row_matches(r, col, k)
}

/// The subsequence of rows in the group of `k` at column `col`.
pub open spec fn matching_rows(rows: Seq<Seq<Val>>, col: int, k: Val) -> Seq<Seq<Val>> {
    rows.filter(match_pred(col, k))
}

/// How many rows lie in the group of `k` at column `col`: the count a
/// grouped COUNT view must report for the key `k`.
pub open spec fn count_matching(rows: Seq<Seq<Val>>, col: int, k: Val) -> nat {
    matching_rows(rows, col, k).len()
}

/// Table well-formedness: the primary key names a column, all rows
/// have the schema's arity and kinds, and primary-key values are
/// pairwise distinct among live rows.
pub open spec fn table_wf(m: TableModel) -> bool {
    &&& 0 <= m.pk < m.cols.len()
    &&& forall|i: int| 0 <= i < m.rows.len() ==> (#[trigger] m.rows[i]).len() == m.cols.len()
    &&& forall|i: int, j: int|
        0 <= i < m.rows.len() && 0 <= j < m.cols.len() ==> kind_ok(
            #[trigger] m.rows[i][j],
            m.cols[j].kind,
        )
    &&& forall|i: int, j: int|
        0 <= i < j < m.rows.len() ==> #[trigger] m.rows[i][m.pk] != #[trigger] m.rows[j][m.pk]
}

/// The sequence number after one successful mutation.
pub open spec fn next_seq_no(s: int) -> int {
    if s < u64::MAX as int {
        s + 1
    } else {
        s
    }
}

/// Appending a row extends its group's materialized rows by exactly
/// that row and leaves every other group unchanged.
pub proof fn lemma_matching_push(rows: Seq<Seq<Val>>, col: int, k: Val, r: Seq<Val>)
    ensures
        matching_rows(rows.push(r), col, k) == if row_matches(r, col, k) {
            matching_rows(rows, col, k).push(r)
        } else {
            matching_rows(rows, col, k)
        },
{
    reveal(Seq::filter);
    assert(rows.push(r).drop_last() =~= rows);
    assert(rows.push(r).last() == r);
}

/// Appending a row grows its group's count by one and leaves every
/// other group unchanged.
pub proof fn lemma_count_push(rows: Seq<Seq<Val>>, col: int, k: Val, r: Seq<Val>)
    ensures
        count_matching(rows.push(r), col, k) == count_matching(rows, col, k) + (
        if row_matches(r, col, k) {
            1int
        } else {
            0int
        }),
{
    lemma_matching_push(rows, col, k, r);
}

/// Removing a row shrinks its group's count by one and leaves every
/// other group unchanged.
pub proof fn lemma_count_remove(rows: Seq<Seq<Val>>, col: int, k: Val, i: int)
    requires
        0 <= i < rows.len(),
    ensures
        count_matching(rows, col, k) == count_matching(rows.remove(i), col, k) + (
        if row_matches(rows[i], col, k) {
            1int
        } else {
            0int
        }),
    decreases rows.len(),
{
    reveal(Seq::filter);
    if i == rows.len() - 1 {
        assert(rows.remove(i) =~= rows.drop_last());
        assert(rows.last() == rows[i]);
    } else {
        let shorter = rows.drop_last();
        assert(rows.remove(i).drop_last() =~= shorter.remove(i));
        assert(rows.remove(i).last() == rows.last());
        lemma_count_remove(shorter, col, k, i);
        assert(rows.remove(i).len() > 0);
    }
}

/// A group's count never exceeds the number of live rows.
pub proof fn lemma_count_le_len(rows: Seq<Seq<Val>>, col: int, k: Val)
    ensures
        count_matching(rows, col, k) <= rows.len(),
{
    rows.lemma_filter_len(match_pred(col, k));
}

/// A group containing a live row has a positive count.
pub proof fn lemma_count_pos(rows: Seq<Seq<Val>>, col: int, k: Val, i: int)
    requires
        0 <= i < rows.len(),
        row_matches(rows[i], col, k),
    ensures
        count_matching(rows, col, k) >= 1,
{
    rows.lemma_filter_contains(match_pred(col, k), i);
}

/// A group with no live row has count zero.
pub proof fn lemma_count_zero(rows: Seq<Seq<Val>>, col: int, k: Val)
    requires
        forall|i: int| 0 <= i < rows.len() ==> !row_matches(#[trigger] rows[i], col, k),
    ensures
        count_matching(rows, col, k) == 0,
    decreases rows.len(),
{
    reveal(Seq::filter);
    if rows.len() > 0 {
        let shorter = rows.drop_last();
        assert(forall|i: int|
            0 <= i < shorter.len() ==> !row_matches(#[trigger] shorter[i], col, k));
        lemma_count_zero(shorter, col, k);
        assert(rows.last() == rows[rows.len() - 1]);
    }
}

impl Table {
    /// The index of the live row whose primary-key value is `key`, if
    /// one exists.
    pub fn find_row(&self, key: &DataType) -> (r: Option<usize>)
        requires
            table_wf(self@),
        ensures
            match r {
                Some(i) => 0 <= i < self@.rows.len() && self@.rows[i as int][self@.pk] == key@,
                None => forall|i: int|
                    0 <= i < self@.rows.len() ==> #[trigger] self@.rows[i][self@.pk] != key@,
            },
    {
        let mut i: usize = 0;
        while i < self.rows.len()
            invariant
                table_wf(self@),
                i <= self@.rows.len(),
                forall|j: int| 0 <= j < i ==> #[trigger] self@.rows[j][self@.pk] != key@,
            decreases self@.rows.len() - i,
        {
            proof {
                assert(self@.rows[i as int] == self.rows@[i as int].deep_view());
                assert(self@.rows[i as int].len() == self@.cols.len());
            }
            if val_eq(&self.rows[i][self.primary_key], key) {
                return Some(i);
            }
            i = i + 1;
        }
        None
    }

    /// Whether `row` fits the schema's column kinds (arity must already
    /// match).
    pub fn row_kinds_ok(&self, row: &Vec<DataType>) -> (r: bool)
        requires
            row@.len() == self@.cols.len(),
        ensures
            r == (forall|j: int|
                0 <= j < self@.cols.len() ==> kind_ok(
                    #[trigger] row.deep_view()[j],
                    self@.cols[j].kind,
                )),
    {
        let mut j: usize = 0;
        while j < row.len()
            invariant
                j <= row@.len(),
                row@.len() == self@.cols.len(),
                forall|q: int| 0 <= q < j ==> kind_ok(#[trigger] row.deep_view()[q], self@.cols[q].kind),
            decreases row@.len() - j,
        {
            if !row[j].fits_kind(self.columns[j].kind) {
                proof {
                    assert(!kind_ok(row.deep_view()[j as int], self@.cols[j as int].kind));
                }
                return false;
            }
            j = j + 1;
        }
        true
    }

    /// Record a validated row and advance the sequence number.
    pub fn push_row(&mut self, row: Vec<DataType>)
        ensures
            final(self)@ == (TableModel {
                rows: old(self)@.rows.push(row.deep_view()),
                seq_no: next_seq_no(old(self)@.seq_no),
                ..old(self)@
            }),
    {
        self.rows.push(row);
        if self.seq_no < u64::MAX {
            self.seq_no = self.seq_no + 1;
        }
        proof {
            assert(self.rows.deep_view() =~= old(self).rows.deep_view().push(row.deep_view()));
        }
    }

    /// Remove the live row at index `i` and advance the sequence
    /// number.
    pub fn remove_row(&mut self, i: usize)
        requires
            i < old(self)@.rows.len(),
        ensures
            final(self)@ == (TableModel {
                rows: old(self)@.rows.remove(i as int),
                seq_no: next_seq_no(old(self)@.seq_no),
                ..old(self)@
            }),
    {
        self.rows.remove(i);
        if self.seq_no < u64::MAX {
            self.seq_no = self.seq_no + 1;
        }
        proof {
            assert(self.rows.deep_view() =~= old(self).rows.deep_view().remove(i as int));
        }
    }
}

} // verus!
