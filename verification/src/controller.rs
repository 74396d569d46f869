//! The controller: owner of all tables, views, and their wiring.
//!
//! The controller orchestrates recipe installation and extension,
//! applies inserts and deletes to base tables, propagates the
//! resulting change events synchronously into every dependent
//! materialized view before the mutating call returns, and serves
//! point lookups from the materialized state.
//!
//! Because propagation completes before a mutation returns, a lookup
//! always observes the effects of every mutation that returned before
//! it began; the `blocking` lookup flag therefore never has to wait
//! and cannot change the result, which the lookup contract states by
//! not depending on it.

use vstd::prelude::*;

use crate::error::Error;
use crate::plan::{Recipe, RecipeModel, TableDef, TableDefModel, ViewDef, ViewDefModel,
    view_def_name};
use crate::table::{clone_cols, count_matching, next_seq_no, row_matches, table_wf, Table,
    TableModel, lemma_count_push, lemma_count_remove, lemma_count_le_len, lemma_count_pos,
    lemma_count_zero, matching_rows, lemma_matching_push};
use crate::value::{kind_ok, str_eq, clone_row, val_eq, DataType, Val};
use crate::views::{bump, count_cell, count_of, debump, distinct_keys, has_key, join_rows,
    joined_row, lemma_bump, lemma_debump, lemma_debump_bump, CountModel, CountView, JoinModel,
    JoinView};

verus! {

/// Mathematical abstraction of the whole engine: the tables with
/// their live rows, the count views with their materialized entries,
/// and the join views' definitions (a join view's content is derived:
/// see `join_rows`).
#[verifier::ext_equal]
pub struct ControllerModel {
    pub tables: Seq<TableModel>,
    pub counts: Seq<CountModel>,
    pub joins: Seq<JoinModel>,
}

/// The engine.
pub struct Controller {
    tables: Vec<Table>,
    counts: Vec<CountView>,
    joins: Vec<JoinView>,
}

impl View for Controller {
    type V = ControllerModel;

    closed spec fn view(&self) -> ControllerModel {
        ControllerModel {
            tables: self.tables@.map_values(|t: Table| t@),
            counts: self.counts@.map_values(|c: CountView| c@),
            joins: self.joins@.map_values(|j: JoinView| j@),
        }
    }
}

/// For every key, the count an index records equals the true number of
/// matching live rows.  This is the heart of the engine: each count
/// view's recorded counts always agree with a recomputation from the
/// current live rows of its source table.
pub open spec fn counts_accurate(rows: Seq<Seq<Val>>, col: int, es: Seq<crate::views::EntryModel>) -> bool {
    forall|k: Val| #[trigger] count_of(es, k) == count_matching(rows, col, k)
}

/// A join view is well formed when its base table, base column, and
/// count view all exist.
pub open spec fn join_wf(m: ControllerModel, j: JoinModel) -> bool {
    &&& 0 <= j.base < m.tables.len()
    &&& 0 <= j.count_view < m.counts.len()
    &&& 0 <= j.base_col < m.tables[j.base].cols.len()
}

/// Whole-engine well-formedness: every table, count view, and join
/// view is well formed, and names are unique (among tables, and among
/// views of both shapes together).
pub open spec fn wf_model(m: ControllerModel) -> bool {
    &&& forall|t: int| 0 <= t < m.tables.len() ==> table_wf(#[trigger] m.tables[t])
    &&& forall|c: int|
        0 <= c < m.counts.len() ==> {
            let cv = #[trigger] m.counts[c];
            &&& 0 <= cv.source < m.tables.len()
            &&& 0 <= cv.group_col < m.tables[cv.source].cols.len()
            &&& distinct_keys(cv.entries)
            &&& counts_accurate(m.tables[cv.source].rows, cv.group_col, cv.entries)
        }
    &&& forall|j: int| 0 <= j < m.joins.len() ==> join_wf(m, #[trigger] m.joins[j])
    &&& forall|i: int, j: int|
        0 <= i < j < m.tables.len() ==> (#[trigger] m.tables[i]).name != (#[trigger] m.tables[j]).name
    &&& forall|i: int, j: int|
        0 <= i < j < m.counts.len() ==> (#[trigger] m.counts[i]).name != (#[trigger] m.counts[j]).name
    &&& forall|i: int, j: int|
        0 <= i < j < m.joins.len() ==> (#[trigger] m.joins[i]).name != (#[trigger] m.joins[j]).name
    &&& forall|i: int, j: int|
        0 <= i < m.counts.len() && 0 <= j < m.joins.len() ==> (#[trigger] m.counts[i]).name != (
        #[trigger] m.joins[j]).name
}

/// The error, if any, with which a table rejects an insert: wrong
/// arity first, then a value of the wrong kind, then a duplicate
/// primary-key value.  A row that none of these rejects is accepted.
pub open spec fn insert_outcome(m: ControllerModel, t: int, row: Seq<Val>) -> Option<Error> {
    let tab = m.tables[t];
    if row.len() != tab.cols.len() {
        Some(Error::ArityError)
    } else if !(forall|j: int| 0 <= j < row.len() ==> kind_ok(#[trigger] row[j], tab.cols[j].kind)) {
        Some(Error::TypeMismatch)
    } else if key_present(m, t, row[tab.pk]) {
        Some(Error::DuplicateKey)
    } else {
        None
    }
}

/// Whether some live row of table `t` carries the primary-key value
/// `k`.
pub open spec fn key_present(m: ControllerModel, t: int, k: Val) -> bool {
    exists|i: int|
        0 <= i < m.tables[t].rows.len() && (#[trigger] m.tables[t].rows[i])[m.tables[t].pk] == k
}

/// The position of the live row of table `t` carrying primary-key
/// value `k` (meaningful when `key_present` holds; unique by the
/// table's invariant).
pub open spec fn row_at(m: ControllerModel, t: int, k: Val) -> int {
    choose|i: int|
        0 <= i < m.tables[t].rows.len() && (#[trigger] m.tables[t].rows[i])[m.tables[t].pk] == k
}

/// A delete is rejected exactly when no live row carries the key.
pub open spec fn delete_outcome(m: ControllerModel, t: int, k: Val) -> Option<Error> {
    if key_present(m, t, k) {
        None
    } else {
        Some(Error::NotFound)
    }
}

/// The count views after a positive change event: every view sourced
/// at table `t` bumps the entry of the inserted row's group key.
pub open spec fn bumped_counts(counts: Seq<CountModel>, t: int, row: Seq<Val>) -> Seq<CountModel> {
    Seq::new(
        counts.len(),
        |c: int|
            if counts[c].source == t {
                CountModel {
                    name: counts[c].name,
                    source: counts[c].source,
                    group_col: counts[c].group_col,
                    entries: bump(counts[c].entries, row[counts[c].group_col]),
                }
            } else {
                counts[c]
            },
    )
}

/// The count views after a negative change event for the dead row.
pub open spec fn debumped_counts(counts: Seq<CountModel>, t: int, dead: Seq<Val>) -> Seq<
    CountModel,
> {
    Seq::new(
        counts.len(),
        |c: int|
            if counts[c].source == t {
                CountModel {
                    name: counts[c].name,
                    source: counts[c].source,
                    group_col: counts[c].group_col,
                    entries: debump(counts[c].entries, dead[counts[c].group_col]),
                }
            } else {
                counts[c]
            },
    )
}

/// The whole engine state after a successful insert of `row` into
/// table `t`: the row is appended, the table's sequence number
/// advances, and every dependent count view is bumped.  Join views'
/// content is derived, so their state is their definitions, unchanged.
pub open spec fn tr_insert(m: ControllerModel, t: int, row: Seq<Val>) -> ControllerModel {
    let tab = m.tables[t];
    ControllerModel {
        tables: m.tables.update(
            t,
            TableModel {
                name: tab.name,
                cols: tab.cols,
                pk: tab.pk,
                rows: tab.rows.push(row),
                seq_no: next_seq_no(tab.seq_no),
            },
        ),
        counts: bumped_counts(m.counts, t, row),
        joins: m.joins,
    }
}

/// The whole engine state after a successful delete of the row with
/// primary-key value `k` from table `t`.
pub open spec fn tr_delete(m: ControllerModel, t: int, k: Val) -> ControllerModel {
    let tab = m.tables[t];
    let i = row_at(m, t, k);
    let dead = tab.rows[i];
    ControllerModel {
        tables: m.tables.update(
            t,
            TableModel {
                name: tab.name,
                cols: tab.cols,
                pk: tab.pk,
                rows: tab.rows.remove(i),
                seq_no: next_seq_no(tab.seq_no),
            },
        ),
        counts: debumped_counts(m.counts, t, dead),
        joins: m.joins,
    }
}

/// Whether some table in the sequence bears the name.
pub open spec fn table_named(tables: Seq<TableModel>, name: Seq<char>) -> bool {
    exists|i: int| 0 <= i < tables.len() && (#[trigger] tables[i]).name == name
}

/// The position of the table bearing the name (unique when names are
/// distinct).
pub open spec fn table_index_named(tables: Seq<TableModel>, name: Seq<char>) -> int {
    choose|i: int| 0 <= i < tables.len() && (#[trigger] tables[i]).name == name
}

/// Whether some count view in the sequence bears the name.
pub open spec fn count_named(counts: Seq<CountModel>, name: Seq<char>) -> bool {
    exists|i: int| 0 <= i < counts.len() && (#[trigger] counts[i]).name == name
}

/// The position of the count view bearing the name.
pub open spec fn count_index_named(counts: Seq<CountModel>, name: Seq<char>) -> int {
    choose|i: int| 0 <= i < counts.len() && (#[trigger] counts[i]).name == name
}

/// Whether some join view in the sequence bears the name.
pub open spec fn join_named(joins: Seq<JoinModel>, name: Seq<char>) -> bool {
    exists|i: int| 0 <= i < joins.len() && (#[trigger] joins[i]).name == name
}

/// Whether some count definition in the plan bears the name.
pub open spec fn def_count_named(views: Seq<ViewDefModel>, name: Seq<char>) -> bool {
    exists|i: int|
        0 <= i < views.len() && (#[trigger] views[i]) is Count && view_def_name(views[i]) == name
}

/// A freshly created table: the definition's schema and no rows.
pub open spec fn new_table(d: TableDefModel) -> TableModel {
    TableModel { name: d.name, cols: d.cols, pk: d.pk, rows: Seq::empty(), seq_no: 0 }
}

/// The tables a list of definitions creates, in order.
pub open spec fn new_tables_of(defs: Seq<TableDefModel>) -> Seq<TableModel> {
    Seq::new(defs.len(), |i: int| new_table(defs[i]))
}

/// The tables once a plan's definitions are appended.
pub open spec fn tables_after(m: ControllerModel, r: RecipeModel) -> Seq<TableModel> {
    m.tables + new_tables_of(r.tables)
}

/// A count view that one of the plan's count definitions declares:
/// same name, the named source table, the declared group column.
pub open spec fn count_matches_def(rm: RecipeModel, ta: Seq<TableModel>, c: CountModel) -> bool {
    exists|w: int|
        {
            &&& 0 <= w < rm.views.len()
            &&& (#[trigger] rm.views[w]) is Count
            &&& c.name == view_def_name(rm.views[w])
            &&& c.source == table_index_named(ta, rm.views[w]->Count_source)
            &&& c.group_col == rm.views[w]->Count_group_col
        }
}

/// A join view that one of the plan's join definitions declares: same
/// name, the named base table and count view, the declared base
/// column.
pub open spec fn join_matches_def(
    rm: RecipeModel,
    ta: Seq<TableModel>,
    mc: Seq<CountModel>,
    j: JoinModel,
) -> bool {
    exists|w: int|
        {
            &&& 0 <= w < rm.views.len()
            &&& (#[trigger] rm.views[w]) is Join
            &&& j.name == view_def_name(rm.views[w])
            &&& j.base == table_index_named(ta, rm.views[w]->Join_base)
            &&& j.base_col == rm.views[w]->Join_base_col
            &&& j.count_view == count_index_named(mc, rm.views[w]->Join_count_view)
        }
}

/// Validity of the `i`-th table definition: the primary key names one
/// of its columns and the name is fresh (not an existing table's, not
/// an earlier definition's).
pub open spec fn table_def_ok(m: ControllerModel, r: RecipeModel, i: int) -> bool {
    let d = r.tables[i];
    &&& 0 <= d.pk < d.cols.len()
    &&& !table_named(m.tables, d.name)
    &&& forall|w: int| 0 <= w < i ==> (#[trigger] r.tables[w]).name != d.name
}

/// Validity of the `v`-th view definition: a fresh name, and every
/// reference resolves — a count's source table must exist (among old
/// and new tables) with the group column in range; a join's base
/// table likewise, and its count view must exist among the old count
/// views or the plan's count definitions.
pub open spec fn view_def_ok(m: ControllerModel, r: RecipeModel, v: int) -> bool {
    let d = r.views[v];
    let nm = view_def_name(d);
    &&& !count_named(m.counts, nm)
    &&& !join_named(m.joins, nm)
    &&& forall|w: int| 0 <= w < v ==> view_def_name(#[trigger] r.views[w]) != nm
    &&& match d {
        ViewDefModel::Count { source, group_col, .. } => {
            &&& table_named(tables_after(m, r), source)
            &&& 0 <= group_col < tables_after(m, r)[table_index_named(
                tables_after(m, r),
                source,
            )].cols.len()
        },
        ViewDefModel::Join { base, base_col, count_view, .. } => {
            &&& table_named(tables_after(m, r), base)
            &&& 0 <= base_col < tables_after(m, r)[table_index_named(
                tables_after(m, r),
                base,
            )].cols.len()
            &&& (count_named(m.counts, count_view) || def_count_named(r.views, count_view))
        },
    }
}

/// A plan extends the current recipe cleanly when every definition in
/// it is valid.
pub open spec fn extend_ok(m: ControllerModel, r: RecipeModel) -> bool {
    &&& forall|i: int| 0 <= i < r.tables.len() ==> table_def_ok(m, r, i)
    &&& forall|v: int| 0 <= v < r.views.len() ==> view_def_ok(m, r, v)
}

/// What a successful recipe extension leaves behind: the old tables
/// and views untouched (extension never disturbs a view already
/// serving lookups), the new tables empty, and each new view present
/// under its declared name, wired to the named table or count view,
/// with its initial fill reflecting exactly the rows live in its
/// sources at the time of the call.
pub open spec fn extend_post(m: ControllerModel, r: RecipeModel, f: ControllerModel) -> bool {
    &&& f.tables == tables_after(m, r)
    &&& f.counts.len() >= m.counts.len()
    &&& f.joins.len() >= m.joins.len()
    &&& forall|q: int| 0 <= q < m.counts.len() ==> #[trigger] f.counts[q] == m.counts[q]
    &&& forall|q: int| 0 <= q < m.joins.len() ==> #[trigger] f.joins[q] == m.joins[q]
    &&& forall|q: int|
        m.counts.len() <= q < f.counts.len() ==> count_matches_def(
            r,
            f.tables,
            #[trigger] f.counts[q],
        )
    &&& forall|q: int|
        m.counts.len() <= q < f.counts.len() ==> has_key_iff_present(#[trigger] f.counts[q], f)
    &&& forall|q: int|
        m.joins.len() <= q < f.joins.len() ==> join_matches_def(
            r,
            f.tables,
            f.counts,
            #[trigger] f.joins[q],
        )
    &&& forall|w: int|
        0 <= w < r.views.len() && (#[trigger] r.views[w]) is Count ==> count_named(
            f.counts,
            view_def_name(r.views[w]),
        )
    &&& forall|w: int|
        0 <= w < r.views.len() && (#[trigger] r.views[w]) is Join ==> join_named(
            f.joins,
            view_def_name(r.views[w]),
        )
}

/// A count view created by an initial fill has an entry exactly for
/// the keys with at least one matching live row — no zero-count
/// entries until a later delete drives a count to zero.
pub open spec fn has_key_iff_present(c: CountModel, f: ControllerModel) -> bool {
    forall|k: Val|
        #[trigger] has_key(c.entries, k) <==> count_matching(
            f.tables[c.source].rows,
            c.group_col,
            k,
        ) > 0
}

/// A handle onto one base table, as returned by [`Controller::table`].
pub struct TableHandle {
    idx: usize,
}

impl View for TableHandle {
    type V = int;

    closed spec fn view(&self) -> int {
        self.idx as int
    }
}

/// A handle onto one view, as returned by [`Controller::view`].
pub struct ViewHandle {
    is_join: bool,
    idx: usize,
}

/// What a view handle designates: a count view or a join view, by
/// position.
pub enum ViewRef {
    Count(int),
    Join(int),
}

impl View for ViewHandle {
    type V = ViewRef;

    closed spec fn view(&self) -> ViewRef {
        if self.is_join {
            ViewRef::Join(self.idx as int)
        } else {
            ViewRef::Count(self.idx as int)
        }
    }
}

/// Whether a view handle points inside the engine.
pub open spec fn view_handle_valid(r: ViewRef, m: ControllerModel) -> bool {
    match r {
        ViewRef::Count(c) => 0 <= c < m.counts.len(),
        ViewRef::Join(j) => 0 <= j < m.joins.len(),
    }
}

impl Controller {
    /// The exec state materializes exactly the derived content of each
    /// join view.
    spec fn joins_materialized(&self) -> bool {
        forall|q: int|
            0 <= q < self.joins@.len() ==> (#[trigger] self.joins@[q]).rows.deep_view()
                == join_rows(
                self@.tables[self.joins@[q]@.base].rows,
                self.joins@[q]@.base_col,
                self@.counts[self.joins@[q]@.count_view].entries,
            )
    }

    /// The engine invariant: the abstract state is well formed and the
    /// materialized join rows agree with it.  Established by
    /// [`Controller::new`] and preserved by every operation.
    pub closed spec fn inv(&self) -> bool {
        &&& wf_model(self@)
        &&& self.joins_materialized()
    }

    /// The engine invariant includes well-formedness of the abstract
    /// state: the bridge a caller holding only `inv` needs in order to
    /// apply the model-level laws, which speak of `wf_model`.
    pub proof fn lemma_inv_wf(&self)
        requires
            self.inv(),
        ensures
            wf_model(self@),
    {
    }

    /// A fresh engine with no tables and no views.
    pub fn new() -> (r: Controller)
        ensures
            r.inv(),
            r@.tables.len() == 0,
            r@.counts.len() == 0,
            r@.joins.len() == 0,
    {
        let r = Controller { tables: Vec::new(), counts: Vec::new(), joins: Vec::new() };
        proof {
            assert(r@.tables =~= Seq::<TableModel>::empty());
            assert(r@.counts =~= Seq::<CountModel>::empty());
            assert(r@.joins =~= Seq::<JoinModel>::empty());
        }
        r
    }

    /// A handle for the table called `name`; `NotFound` when the
    /// current recipe has no such table.
    pub fn table(&self, name: &str) -> (r: Result<TableHandle, Error>)
        ensures
            match r {
                Ok(h) => 0 <= h@ < self@.tables.len() && self@.tables[h@].name == name@,
                Err(e) => e == Error::NotFound && forall|i: int|
                    0 <= i < self@.tables.len() ==> (#[trigger] self@.tables[i]).name != name@,
            },
    {
        let mut i: usize = 0;
        while i < self.tables.len()
            invariant
                i <= self@.tables.len(),
                self@.tables.len() == self.tables@.len(),
                forall|q: int| 0 <= q < i ==> (#[trigger] self@.tables[q]).name != name@,
            decreases self@.tables.len() - i,
        {
            proof {
                assert(self@.tables[i as int] == self.tables@[i as int]@);
            }
            if str_eq(self.tables[i].name.as_str(), name) {
                return Ok(TableHandle { idx: i });
            }
            i = i + 1;
        }
        Err(Error::NotFound)
    }

    /// A handle for the view called `name`; `NotFound` when the
    /// current recipe has no such view.  (Named `view_handle` rather
    /// than `view` so that it cannot be mistaken for the `View` trait's
    /// abstraction function.)
    pub fn view_handle(&self, name: &str) -> (r: Result<ViewHandle, Error>)
        ensures
            match r {
                Ok(h) => view_handle_valid(h@, self@) && match h@ {
                    ViewRef::Count(c) => self@.counts[c].name == name@,
                    ViewRef::Join(j) => self@.joins[j].name == name@,
                },
                Err(e) => {
                    &&& e == Error::NotFound
                    &&& forall|i: int|
                        0 <= i < self@.counts.len() ==> (#[trigger] self@.counts[i]).name != name@
                    &&& forall|i: int|
                        0 <= i < self@.joins.len() ==> (#[trigger] self@.joins[i]).name != name@
                },
            },
    {
        let mut i: usize = 0;
        while i < self.counts.len()
            invariant
                i <= self@.counts.len(),
                self@.counts.len() == self.counts@.len(),
                forall|q: int| 0 <= q < i ==> (#[trigger] self@.counts[q]).name != name@,
            decreases self@.counts.len() - i,
        {
            proof {
                assert(self@.counts[i as int] == self.counts@[i as int]@);
            }
            if str_eq(self.counts[i].name.as_str(), name) {
                return Ok(ViewHandle { is_join: false, idx: i });
            }
            i = i + 1;
        }
        let mut j: usize = 0;
        while j < self.joins.len()
            invariant
                j <= self@.joins.len(),
                self@.joins.len() == self.joins@.len(),
                forall|q: int| 0 <= q < self@.counts.len() ==> (#[trigger] self@.counts[q]).name
                    != name@,
                forall|q: int| 0 <= q < j ==> (#[trigger] self@.joins[q]).name != name@,
            decreases self@.joins.len() - j,
        {
            proof {
                assert(self@.joins[j as int] == self.joins@[j as int]@);
            }
            if str_eq(self.joins[j].name.as_str(), name) {
                return Ok(ViewHandle { is_join: true, idx: j });
            }
            j = j + 1;
        }
        Err(Error::NotFound)
    }

    /// Insert a row into the table behind `h`.
    ///
    /// The row is validated first (arity, column kinds, primary-key
    /// uniqueness) and rejected with no effect on failure.  On success
    /// the row is recorded and its positive change event is propagated
    /// synchronously into every dependent view before the call
    /// returns: the new state is exactly `tr_insert`.
    pub fn insert(&mut self, h: &TableHandle, row: Vec<DataType>) -> (r: Result<(), Error>)
        requires
            old(self).inv(),
            0 <= h@ < old(self)@.tables.len(),
        ensures
            final(self).inv(),
            wf_model(final(self)@),
            match r {
                Ok(()) => insert_outcome(old(self)@, h@, row.deep_view()) is None && final(self)@
                    == tr_insert(old(self)@, h@, row.deep_view()),
                Err(e) => Some(e) == insert_outcome(old(self)@, h@, row.deep_view())
                    && final(self)@ == old(self)@,
            },
    {
        let ghost m0 = self@;
        let ghost row_v = row.deep_view();
        let t = h.idx;
        proof {
            assert(self@.tables[h@] == self.tables@[t as int]@);
        }
        if row.len() != self.tables[t].columns.len() {
            return Err(Error::ArityError);
        }
        if !self.tables[t].row_kinds_ok(&row) {
            return Err(Error::TypeMismatch);
        }
        let pk = self.tables[t].primary_key;
        proof {
            assert(table_wf(m0.tables[h@]));
        }
        match self.tables[t].find_row(&row[pk]) {
            Some(_) => {
                proof {
                    assert(key_present(m0, h@, row_v[m0.tables[h@].pk]));
                }
                return Err(Error::DuplicateKey);
            },
            None => {},
        }
        let ghost m1 = tr_insert(m0, h@, row_v);
        proof {
            assert(insert_outcome(m0, h@, row_v) is None);
        }
        // Record the row; this is the point the change event is born.
        let dup = clone_row(&row);
        let tab = &mut self.tables[t];
        tab.push_row(dup);
        proof {
            assert(self@.tables[h@] == self.tables@[t as int]@);
            assert(self@.tables =~= m1.tables);
            assert(self@.counts =~= m0.counts);
            assert(self@.joins =~= m0.joins);
        }
        // Propagate the positive event into every count view sourced
        // at this table.
        let rows_now = self.tables[t].rows.len();
        proof {
            assert(m1.tables[h@].rows.len() == rows_now as int);
        }
        let mut c: usize = 0;
        while c < self.counts.len()
            invariant
                wf_model(m0),
                0 <= h@ < m0.tables.len(),
                t == h@,
                row_v == row.deep_view(),
                row_v.len() == m0.tables[h@].cols.len(),
                m1 == tr_insert(m0, h@, row_v),
                m1.tables[h@].rows.len() <= usize::MAX as int,
                self@.tables == m1.tables,
                self@.joins == m0.joins,
                self.joins@ =~= old(self).joins@,
                c <= m0.counts.len(),
                self@.counts.len() == m0.counts.len(),
                self.counts@.len() == m0.counts.len(),
                forall|q: int| 0 <= q < c ==> (#[trigger] self.counts@[q])@ == m1.counts[q],
                forall|q: int| c <= q < m0.counts.len() ==> (#[trigger] self.counts@[q])@
                    == m0.counts[q],
            decreases m0.counts.len() - c,
        {
            proof {
                assert(self@.counts[c as int] == self.counts@[c as int]@);
            }
            if self.counts[c].source == t {
                let gc = self.counts[c].group_col;
                proof {
                    assert(m0.counts[c as int].group_col < m0.tables[h@].cols.len());
                }
                let key = row[gc].duplicate();
                proof {
                    assert(key@ == row_v[gc as int]);
                    lemma_count_le_len(m0.tables[h@].rows, gc as int, key@);
                    assert(m1.tables[h@].rows.len() == m0.tables[h@].rows.len() + 1);
                    assert(count_of(m0.counts[c as int].entries, key@) == count_matching(
                        m0.tables[h@].rows,
                        gc as int,
                        key@,
                    ));
                }
                let cv = &mut self.counts[c];
                cv.bump_entry(&key);
                proof {
                    assert(self@.counts[c as int] == self.counts@[c as int]@);
                    assert(self@.counts[c as int] == m1.counts[c as int]);
                }
            } else {
                proof {
                    assert(self@.counts[c as int] == m1.counts[c as int]);
                }
            }
            c = c + 1;
        }
        proof {
            assert(self@.counts =~= m1.counts);
        }
        // Propagate the count replace events into every join view over
        // a changed count view.
        let mut j: usize = 0;
        while j < self.joins.len()
            invariant
                wf_model(m0),
                0 <= h@ < m0.tables.len(),
                t == h@,
                row_v == row.deep_view(),
                row_v.len() == m0.tables[h@].cols.len(),
                m1 == tr_insert(m0, h@, row_v),
                self@.tables == m1.tables,
                self@.counts == m1.counts,
                self@.joins == m0.joins,
                self.counts@.len() == m0.counts.len(),
                j <= m0.joins.len(),
                self.joins@.len() == m0.joins.len(),
                forall|q: int| 0 <= q < m0.joins.len() ==> (#[trigger] self.joins@[q])@
                    == m0.joins[q],
                forall|q: int|
                    0 <= q < j ==> (#[trigger] self.joins@[q]).rows.deep_view() == join_rows(
                        m0.tables[m0.joins[q].base].rows,
                        m0.joins[q].base_col,
                        m1.counts[m0.joins[q].count_view].entries,
                    ),
                forall|q: int|
                    j <= q < m0.joins.len() ==> (#[trigger] self.joins@[q]).rows.deep_view()
                        == join_rows(
                        m0.tables[m0.joins[q].base].rows,
                        m0.joins[q].base_col,
                        m0.counts[m0.joins[q].count_view].entries,
                    ),
            decreases m0.joins.len() - j,
        {
            let ghost jm = m0.joins[j as int];
            let ghost base_rows = m0.tables[jm.base].rows;
            proof {
                assert(self.joins@[j as int]@ == jm);
                assert(join_wf(m0, jm));
            }
            let cvi = self.joins[j].count_view;
            proof {
                assert(self@.counts[cvi as int] == self.counts@[cvi as int]@);
            }
            if self.counts[cvi].source == t {
                let gc = self.counts[cvi].group_col;
                let ghost es0 = m0.counts[cvi as int].entries;
                let ghost es1 = m1.counts[cvi as int].entries;
                proof {
                    assert(m1.counts[cvi as int].group_col == m0.counts[cvi as int].group_col);
                    assert(m0.counts[cvi as int].group_col < m0.tables[h@].cols.len());
                    assert(distinct_keys(es0));
                    assert(es1 == bump(es0, row_v[gc as int]));
                    lemma_bump(es0, row_v[gc as int], row_v[gc as int]);
                }
                let key = row[gc].duplicate();
                let cell = match self.counts[cvi].get(&key) {
                    Some(n) => DataType::Int(n as i128),
                    None => DataType::Null,
                };
                proof {
                    assert(cell@ == count_cell(es1, key@));
                }
                let ghost old_mat = self.joins@[j as int].rows.deep_view();
                proof {
                    assert(old_mat == join_rows(base_rows, jm.base_col, es0));
                    assert forall|q: int| 0 <= q < old_mat.len() implies (#[trigger] old_mat[q]).len()
                        > jm.base_col + 1 by {
                        assert(old_mat[q] == joined_row(base_rows[q], es0, jm.base_col));
                        assert(table_wf(m0.tables[jm.base]));
                        assert(base_rows[q].len() == m0.tables[jm.base].cols.len());
                    }
                }
                let jv = &mut self.joins[j];
                jv.set_count_cell(&key, &cell);
                proof {
                    let new_mat = self.joins@[j as int].rows.deep_view();
                    let target = join_rows(base_rows, jm.base_col, es1);
                    assert forall|q: int| 0 <= q < old_mat.len() implies new_mat[q] == target[q] by {
                        let br = base_rows[q];
                        assert(old_mat[q] == joined_row(br, es0, jm.base_col));
                        assert(old_mat[q][jm.base_col] == br[jm.base_col]);
                        lemma_bump(es0, key@, br[jm.base_col]);
                        if br[jm.base_col] == key@ {
                            assert(new_mat[q] == old_mat[q].update(old_mat[q].len() - 1, cell@));
                            assert(new_mat[q] =~= br.push(count_cell(es1, br[jm.base_col])));
                        } else {
                            assert(new_mat[q] == old_mat[q]);
                            assert(count_cell(es1, br[jm.base_col]) == count_cell(
                                es0,
                                br[jm.base_col],
                            ));
                        }
                    }
                    assert(new_mat =~= target);
                }
            } else {
                proof {
                    assert(m1.counts[cvi as int] == m0.counts[cvi as int]);
                }
            }
            j = j + 1;
        }
        // Propagate the new base row into every join view based at this
        // table: one appended output row, carrying the fresh count.
        let mut j2: usize = 0;
        while j2 < self.joins.len()
            invariant
                wf_model(m0),
                0 <= h@ < m0.tables.len(),
                t == h@,
                row_v == row.deep_view(),
                row_v.len() == m0.tables[h@].cols.len(),
                m1 == tr_insert(m0, h@, row_v),
                self@.tables == m1.tables,
                self@.counts == m1.counts,
                self@.joins == m0.joins,
                self.counts@.len() == m0.counts.len(),
                j2 <= m0.joins.len(),
                self.joins@.len() == m0.joins.len(),
                forall|q: int| 0 <= q < m0.joins.len() ==> (#[trigger] self.joins@[q])@
                    == m0.joins[q],
                forall|q: int|
                    0 <= q < j2 ==> (#[trigger] self.joins@[q]).rows.deep_view() == join_rows(
                        m1.tables[m0.joins[q].base].rows,
                        m0.joins[q].base_col,
                        m1.counts[m0.joins[q].count_view].entries,
                    ),
                forall|q: int|
                    j2 <= q < m0.joins.len() ==> (#[trigger] self.joins@[q]).rows.deep_view()
                        == join_rows(
                        m0.tables[m0.joins[q].base].rows,
                        m0.joins[q].base_col,
                        m1.counts[m0.joins[q].count_view].entries,
                    ),
            decreases m0.joins.len() - j2,
        {
            let ghost jm = m0.joins[j2 as int];
            let ghost es1 = m1.counts[jm.count_view].entries;
            proof {
                assert(self.joins@[j2 as int]@ == jm);
                assert(join_wf(m0, jm));
            }
            if self.joins[j2].base == t {
                let bc = self.joins[j2].base_col;
                let cvi = self.joins[j2].count_view;
                proof {
                    assert(self@.counts[cvi as int] == self.counts@[cvi as int]@);
                    assert(distinct_keys(es1)) by {
                        if m0.counts[cvi as int].source == h@ {
                            lemma_bump(
                                m0.counts[cvi as int].entries,
                                row_v[m0.counts[cvi as int].group_col],
                                row_v[m0.counts[cvi as int].group_col],
                            );
                        }
                    }
                }
                let key = row[bc].duplicate();
                let cell = match self.counts[cvi].get(&key) {
                    Some(n) => DataType::Int(n as i128),
                    None => DataType::Null,
                };
                proof {
                    assert(cell@ == count_cell(es1, key@));
                }
                let rc = clone_row(&row);
                let ghost old_mat = self.joins@[j2 as int].rows.deep_view();
                let jv = &mut self.joins[j2];
                jv.append_joined(rc, cell);
                proof {
                    let new_mat = self.joins@[j2 as int].rows.deep_view();
                    assert(new_mat == old_mat.push(row_v.push(cell@)));
                    assert(m1.tables[jm.base].rows == m0.tables[jm.base].rows.push(row_v));
                    assert(new_mat =~= join_rows(m1.tables[jm.base].rows, jm.base_col, es1));
                }
            } else {
                proof {
                    assert(m1.tables[jm.base].rows == m0.tables[jm.base].rows);
                }
            }
            j2 = j2 + 1;
        }
        proof {
            assert(final(self)@ == m1) by {
                assert(self@.tables == m1.tables);
                assert(self@.counts == m1.counts);
                assert(self@.joins =~= m1.joins);
            }
            lemma_tr_insert_wf(m0, h@, row_v);
            assert(self.joins_materialized()) by {
                assert(forall|q: int| 0 <= q < m1.joins.len() ==> m1.joins[q] == m0.joins[q]);
            }
        }
        Ok(())
    }

    /// Delete the live row whose primary-key value is `key` from the
    /// table behind `h`.
    ///
    /// Rejected with `NotFound`, and no effect, when no live row
    /// carries the key.  On success the row is removed and its
    /// negative change event is propagated synchronously into every
    /// dependent view before the call returns: the new state is
    /// exactly `tr_delete`.  A group count asked to drop below zero
    /// would surface as `InternalInvariant`; the engine invariant
    /// proves that cannot happen here.
    pub fn delete(&mut self, h: &TableHandle, key: &DataType) -> (r: Result<(), Error>)
        requires
            old(self).inv(),
            0 <= h@ < old(self)@.tables.len(),
        ensures
            final(self).inv(),
            wf_model(final(self)@),
            match r {
                Ok(()) => delete_outcome(old(self)@, h@, key@) is None && final(self)@
                    == tr_delete(old(self)@, h@, key@),
                Err(e) => Some(e) == delete_outcome(old(self)@, h@, key@)
                    && final(self)@ == old(self)@,
            },
    {
        let ghost m0 = self@;
        let t = h.idx;
        proof {
            assert(self@.tables[h@] == self.tables@[t as int]@);
            assert(table_wf(m0.tables[h@]));
        }
        let i = match self.tables[t].find_row(key) {
            None => {
                return Err(Error::NotFound);
            },
            Some(i) => i,
        };
        proof {
            assert(key_present(m0, h@, key@));
            let i0 = row_at(m0, h@, key@);
            if i0 != i as int {
                assert(m0.tables[h@].rows[i0][m0.tables[h@].pk] == key@);
                assert(false);
            }
        }
        let ghost dead = m0.tables[h@].rows[i as int];
        let ghost m1 = tr_delete(m0, h@, key@);
        let dead_row = clone_row(&self.tables[t].rows[i]);
        proof {
            assert(dead_row.deep_view() == dead);
            assert(dead.len() == m0.tables[h@].cols.len());
        }
        let tab = &mut self.tables[t];
        tab.remove_row(i);
        proof {
            assert(self@.tables[h@] == self.tables@[t as int]@);
            assert(self@.tables =~= m1.tables);
            assert(self@.counts =~= m0.counts);
            assert(self@.joins =~= m0.joins);
        }
        // Propagate the negative event into every count view sourced
        // at this table.
        let mut c: usize = 0;
        while c < self.counts.len()
            invariant
                wf_model(m0),
                0 <= h@ < m0.tables.len(),
                t == h@,
                dead == dead_row.deep_view(),
                dead == m0.tables[h@].rows[row_at(m0, h@, key@)],
                row_at(m0, h@, key@) == i as int,
                (i as int) < m0.tables[h@].rows.len(),
                dead.len() == m0.tables[h@].cols.len(),
                key_present(m0, h@, key@),
                m1 == tr_delete(m0, h@, key@),
                self@.tables == m1.tables,
                self@.joins == m0.joins,
                self.joins@ =~= old(self).joins@,
                c <= m0.counts.len(),
                self@.counts.len() == m0.counts.len(),
                self.counts@.len() == m0.counts.len(),
                forall|q: int| 0 <= q < c ==> (#[trigger] self.counts@[q])@ == m1.counts[q],
                forall|q: int| c <= q < m0.counts.len() ==> (#[trigger] self.counts@[q])@
                    == m0.counts[q],
            decreases m0.counts.len() - c,
        {
            proof {
                assert(self@.counts[c as int] == self.counts@[c as int]@);
            }
            if self.counts[c].source == t {
                let gc = self.counts[c].group_col;
                proof {
                    assert(m0.counts[c as int].group_col < m0.tables[h@].cols.len());
                }
                let k = dead_row[gc].duplicate();
                proof {
                    assert(k@ == dead[gc as int]);
                    assert(row_matches(dead, gc as int, k@));
                    lemma_count_pos(m0.tables[h@].rows, gc as int, k@, i as int);
                    assert(count_of(m0.counts[c as int].entries, k@) >= 1);
                }
                // The floor-at-zero guard: a decrement below zero is an
                // internal fault, proved unreachable by the invariant.
                match self.counts[c].get(&k) {
                    Some(n) => {
                        if n == 0 {
                            proof {
                                assert(false);
                            }
                            return Err(Error::InternalInvariant);
                        }
                        let cv = &mut self.counts[c];
                        cv.debump_entry(&k);
                        proof {
                            assert(self@.counts[c as int] == self.counts@[c as int]@);
                            assert(self@.counts[c as int] == m1.counts[c as int]);
                        }
                    },
                    None => {
                        proof {
                            assert(false);
                        }
                        return Err(Error::InternalInvariant);
                    },
                }
            } else {
                proof {
                    assert(self@.counts[c as int] == m1.counts[c as int]);
                }
            }
            c = c + 1;
        }
        proof {
            assert(self@.counts =~= m1.counts);
        }
        // Propagate the count replace events into every join view over
        // a changed count view.
        let mut j: usize = 0;
        while j < self.joins.len()
            invariant
                wf_model(m0),
                0 <= h@ < m0.tables.len(),
                t == h@,
                dead == dead_row.deep_view(),
                dead == m0.tables[h@].rows[row_at(m0, h@, key@)],
                row_at(m0, h@, key@) == i as int,
                (i as int) < m0.tables[h@].rows.len(),
                dead.len() == m0.tables[h@].cols.len(),
                key_present(m0, h@, key@),
                m1 == tr_delete(m0, h@, key@),
                self@.tables == m1.tables,
                self@.counts == m1.counts,
                self@.joins == m0.joins,
                self.counts@.len() == m0.counts.len(),
                j <= m0.joins.len(),
                self.joins@.len() == m0.joins.len(),
                forall|q: int| 0 <= q < m0.joins.len() ==> (#[trigger] self.joins@[q])@
                    == m0.joins[q],
                forall|q: int|
                    0 <= q < j ==> (#[trigger] self.joins@[q]).rows.deep_view() == join_rows(
                        m0.tables[m0.joins[q].base].rows,
                        m0.joins[q].base_col,
                        m1.counts[m0.joins[q].count_view].entries,
                    ),
                forall|q: int|
                    j <= q < m0.joins.len() ==> (#[trigger] self.joins@[q]).rows.deep_view()
                        == join_rows(
                        m0.tables[m0.joins[q].base].rows,
                        m0.joins[q].base_col,
                        m0.counts[m0.joins[q].count_view].entries,
                    ),
            decreases m0.joins.len() - j,
        {
            let ghost jm = m0.joins[j as int];
            let ghost base_rows = m0.tables[jm.base].rows;
            proof {
                assert(self.joins@[j as int]@ == jm);
                assert(join_wf(m0, jm));
            }
            let cvi = self.joins[j].count_view;
            proof {
                assert(self@.counts[cvi as int] == self.counts@[cvi as int]@);
            }
            if self.counts[cvi].source == t {
                let gc = self.counts[cvi].group_col;
                let ghost es0 = m0.counts[cvi as int].entries;
                let ghost es1 = m1.counts[cvi as int].entries;
                let ghost k0 = dead[gc as int];
                proof {
                    assert(m0.counts[cvi as int].group_col < m0.tables[h@].cols.len());
                    assert(distinct_keys(es0));
                    assert(row_matches(dead, gc as int, k0));
                    lemma_count_pos(m0.tables[h@].rows, gc as int, k0, i as int);
                    assert(es1 == debump(es0, k0));
                    lemma_debump(es0, k0, k0);
                }
                let k = dead_row[gc].duplicate();
                let cell = match self.counts[cvi].get(&k) {
                    Some(n) => DataType::Int(n as i128),
                    None => DataType::Null,
                };
                proof {
                    assert(cell@ == count_cell(es1, k@));
                }
                let ghost old_mat = self.joins@[j as int].rows.deep_view();
                proof {
                    assert(old_mat == join_rows(base_rows, jm.base_col, es0));
                    assert forall|q: int| 0 <= q < old_mat.len() implies (#[trigger] old_mat[q]).len()
                        > jm.base_col + 1 by {
                        assert(old_mat[q] == joined_row(base_rows[q], es0, jm.base_col));
                        assert(table_wf(m0.tables[jm.base]));
                        assert(base_rows[q].len() == m0.tables[jm.base].cols.len());
                    }
                }
                let jv = &mut self.joins[j];
                jv.set_count_cell(&k, &cell);
                proof {
                    let new_mat = self.joins@[j as int].rows.deep_view();
                    let target = join_rows(base_rows, jm.base_col, es1);
                    assert forall|q: int| 0 <= q < old_mat.len() implies new_mat[q] == target[q] by {
                        let br = base_rows[q];
                        assert(old_mat[q] == joined_row(br, es0, jm.base_col));
                        assert(old_mat[q][jm.base_col] == br[jm.base_col]);
                        lemma_debump(es0, k0, br[jm.base_col]);
                        if br[jm.base_col] == k@ {
                            assert(new_mat[q] == old_mat[q].update(old_mat[q].len() - 1, cell@));
                            assert(new_mat[q] =~= br.push(count_cell(es1, br[jm.base_col])));
                        } else {
                            assert(new_mat[q] == old_mat[q]);
                            assert(count_cell(es1, br[jm.base_col]) == count_cell(
                                es0,
                                br[jm.base_col],
                            ));
                        }
                    }
                    assert(new_mat =~= target);
                }
            } else {
                proof {
                    assert(m1.counts[cvi as int] == m0.counts[cvi as int]);
                }
            }
            j = j + 1;
        }
        // Remove the dead base row's output row from every join view
        // based at this table (it sits at the same position).
        let mut j2: usize = 0;
        while j2 < self.joins.len()
            invariant
                wf_model(m0),
                0 <= h@ < m0.tables.len(),
                t == h@,
                dead == m0.tables[h@].rows[row_at(m0, h@, key@)],
                row_at(m0, h@, key@) == i as int,
                (i as int) < m0.tables[h@].rows.len(),
                key_present(m0, h@, key@),
                m1 == tr_delete(m0, h@, key@),
                self@.tables == m1.tables,
                self@.counts == m1.counts,
                self@.joins == m0.joins,
                j2 <= m0.joins.len(),
                self.joins@.len() == m0.joins.len(),
                forall|q: int| 0 <= q < m0.joins.len() ==> (#[trigger] self.joins@[q])@
                    == m0.joins[q],
                forall|q: int|
                    0 <= q < j2 ==> (#[trigger] self.joins@[q]).rows.deep_view() == join_rows(
                        m1.tables[m0.joins[q].base].rows,
                        m0.joins[q].base_col,
                        m1.counts[m0.joins[q].count_view].entries,
                    ),
                forall|q: int|
                    j2 <= q < m0.joins.len() ==> (#[trigger] self.joins@[q]).rows.deep_view()
                        == join_rows(
                        m0.tables[m0.joins[q].base].rows,
                        m0.joins[q].base_col,
                        m1.counts[m0.joins[q].count_view].entries,
                    ),
            decreases m0.joins.len() - j2,
        {
            let ghost jm = m0.joins[j2 as int];
            let ghost es1 = m1.counts[jm.count_view].entries;
            proof {
                assert(self.joins@[j2 as int]@ == jm);
                assert(join_wf(m0, jm));
            }
            if self.joins[j2].base == t {
                let ghost old_mat = self.joins@[j2 as int].rows.deep_view();
                proof {
                    assert(old_mat.len() == m0.tables[jm.base].rows.len());
                }
                let jv = &mut self.joins[j2];
                jv.remove_joined(i);
                proof {
                    let new_mat = self.joins@[j2 as int].rows.deep_view();
                    assert(new_mat == old_mat.remove(i as int));
                    assert(m1.tables[jm.base].rows == m0.tables[jm.base].rows.remove(i as int));
                    assert(new_mat =~= join_rows(m1.tables[jm.base].rows, jm.base_col, es1));
                }
            } else {
                proof {
                    assert(m1.tables[jm.base].rows == m0.tables[jm.base].rows);
                }
            }
            j2 = j2 + 1;
        }
        proof {
            assert(final(self)@ == m1) by {
                assert(self@.tables == m1.tables);
                assert(self@.counts == m1.counts);
                assert(self@.joins =~= m1.joins);
            }
            lemma_tr_delete_wf(m0, h@, key@);
            assert(self.joins_materialized()) by {
                assert(forall|q: int| 0 <= q < m1.joins.len() ==> m1.joins[q] == m0.joins[q]);
            }
        }
        Ok(())
    }

    /// Point lookup: the materialized rows of the view behind `h`
    /// whose lookup-key value equals `key`.
    ///
    /// For a count view the lookup key is the group key and the result
    /// is one row `[key, count]` — where the count provably equals the
    /// number of live source rows in that group, recomputed — or the
    /// empty sequence when the view has no entry for the key.  For a
    /// join view the result is every output row whose base column
    /// equals the key, in base-table order.  A key with no matching
    /// rows yields an empty sequence, never an error.
    ///
    /// Propagation is synchronous, so every change event of a mutation
    /// that returned has already been applied: a blocking lookup has
    /// nothing to wait for, and `blocking` does not affect the result
    /// (the contract does not mention it).
    pub fn lookup(&self, h: &ViewHandle, key: &DataType, blocking: bool) -> (r: Result<
        Vec<Vec<DataType>>,
        Error,
    >)
        requires
            self.inv(),
            view_handle_valid(h@, self@),
        ensures
            r is Ok,
            match r {
                Ok(out) => match h@ {
                    ViewRef::Count(ci) => {
                        let cv = self@.counts[ci];
                        let cnt = count_matching(self@.tables[cv.source].rows, cv.group_col, key@);
                        out.deep_view() == if has_key(cv.entries, key@) {
                            seq![seq![key@, Val::VInt(cnt as int)]]
                        } else {
                            Seq::<Seq<Val>>::empty()
                        }
                    },
                    ViewRef::Join(ji) => {
                        let jv = self@.joins[ji];
                        let content = join_rows(
                            self@.tables[jv.base].rows,
                            jv.base_col,
                            self@.counts[jv.count_view].entries,
                        );
                        &&& out.deep_view() == matching_rows(content, jv.base_col, key@)
                        &&& (forall|q: int|
                            0 <= q < self@.tables[jv.base].rows.len() ==> !row_matches(
                                #[trigger] self@.tables[jv.base].rows[q],
                                jv.base_col,
                                key@,
                            )) ==> out.deep_view() == Seq::<Seq<Val>>::empty()
                    },
                },
                Err(_) => false,
            },
    {
        let ghost m = self@;
        if !h.is_join {
            let ci = h.idx;
            proof {
                assert(m.counts[ci as int] == self.counts@[ci as int]@);
            }
            let cnt = self.counts[ci].get(key);
            let mut out: Vec<Vec<DataType>> = Vec::new();
            match cnt {
                Some(n) => {
                    let mut row: Vec<DataType> = Vec::new();
                    row.push(key.duplicate());
                    row.push(DataType::Int(n as i128));
                    proof {
                        assert(row.deep_view() =~= seq![key@, Val::VInt(n as int)]);
                        assert(count_of(m.counts[ci as int].entries, key@) == count_matching(
                            m.tables[m.counts[ci as int].source].rows,
                            m.counts[ci as int].group_col,
                            key@,
                        ));
                    }
                    out.push(row);
                    proof {
                        assert(out.deep_view() =~= seq![seq![key@, Val::VInt(n as int)]]);
                    }
                },
                None => {
                    proof {
                        assert(out.deep_view() =~= Seq::<Seq<Val>>::empty());
                    }
                },
            }
            Ok(out)
        } else {
            let ji = h.idx;
            proof {
                assert(m.joins[ji as int] == self.joins@[ji as int]@);
                assert(join_wf(m, m.joins[ji as int]));
            }
            let ghost jm = m.joins[ji as int];
            let ghost base_rows = m.tables[jm.base].rows;
            let ghost es = m.counts[jm.count_view].entries;
            let ghost jrows = self.joins@[ji as int].rows.deep_view();
            proof {
                assert(jrows == join_rows(base_rows, jm.base_col, es));
                assert(table_wf(m.tables[jm.base]));
                assert forall|q: int| 0 <= q < jrows.len() implies (#[trigger] jrows[q]).len()
                    > jm.base_col + 1 by {
                    assert(jrows[q] == joined_row(base_rows[q], es, jm.base_col));
                    assert(base_rows[q].len() == m.tables[jm.base].cols.len());
                }
            }
            let jv = &self.joins[ji];
            proof {
                assert(jv@ == jm);
            }
            let mut out: Vec<Vec<DataType>> = Vec::new();
            let mut i: usize = 0;
            proof {
                assert(out.deep_view() =~= matching_rows(jrows.take(0), jm.base_col, key@)) by {
                    assert(jrows.take(0) =~= Seq::<Seq<Val>>::empty());
                    lemma_count_zero(jrows.take(0), jm.base_col, key@);
                    assert(matching_rows(jrows.take(0), jm.base_col, key@).len() == 0);
                }
            }
            while i < jv.rows.len()
                invariant
                    jv@ == jm,
                    jrows == jv.rows.deep_view(),
                    forall|q: int| 0 <= q < jrows.len() ==> (#[trigger] jrows[q]).len() > jm.base_col
                        + 1,
                    0 <= jm.base_col,
                    i <= jrows.len(),
                    out.deep_view() == matching_rows(jrows.take(i as int), jm.base_col, key@),
                decreases jrows.len() - i,
            {
                proof {
                    assert(jrows[i as int] == jv.rows@[i as int].deep_view());
                    assert(jrows[i as int][jm.base_col] == (jv.rows@[i as int]@[jm.base_col])@);
                    assert(jrows.take(i + 1) =~= jrows.take(i as int).push(jrows[i as int]));
                    lemma_matching_push(jrows.take(i as int), jm.base_col, key@, jrows[i as int]);
                }
                if val_eq(&jv.rows[i][jv.base_col], key) {
                    proof {
                        assert(row_matches(jrows[i as int], jm.base_col, key@));
                    }
                    out.push(clone_row(&jv.rows[i]));
                    proof {
                        assert(out.deep_view() =~= matching_rows(
                            jrows.take(i + 1),
                            jm.base_col,
                            key@,
                        ));
                    }
                } else {
                    proof {
                        assert(!row_matches(jrows[i as int], jm.base_col, key@));
                    }
                }
                i = i + 1;
            }
            proof {
                assert(jrows.take(jrows.len() as int) =~= jrows);
                if forall|q: int|
                    0 <= q < base_rows.len() ==> !row_matches(
                        #[trigger] base_rows[q],
                        jm.base_col,
                        key@,
                    ) {
                    assert forall|q: int| 0 <= q < jrows.len() implies !row_matches(
                        #[trigger] jrows[q],
                        jm.base_col,
                        key@,
                    ) by {
                        assert(jrows[q] == joined_row(base_rows[q], es, jm.base_col));
                        assert(jrows[q][jm.base_col] == base_rows[q][jm.base_col]);
                    }
                    lemma_count_zero(jrows, jm.base_col, key@);
                    assert(out.deep_view().len() == 0);
                    assert(out.deep_view() =~= Seq::<Seq<Val>>::empty());
                }
            }
            Ok(out)
        }
    }

    /// Find a count view by name.
    fn find_count(&self, name: &str) -> (r: Option<usize>)
        ensures
            match r {
                Some(i) => (i as int) < self@.counts.len() && self@.counts[i as int].name == name@,
                None => forall|q: int|
                    0 <= q < self@.counts.len() ==> (#[trigger] self@.counts[q]).name != name@,
            },
    {
        let mut i: usize = 0;
        while i < self.counts.len()
            invariant
                i <= self@.counts.len(),
                self@.counts.len() == self.counts@.len(),
                forall|q: int| 0 <= q < i ==> (#[trigger] self@.counts[q]).name != name@,
            decreases self@.counts.len() - i,
        {
            proof {
                assert(self@.counts[i as int] == self.counts@[i as int]@);
            }
            if str_eq(self.counts[i].name.as_str(), name) {
                return Some(i);
            }
            i = i + 1;
        }
        None
    }

    /// Validate a plan against the current recipe: every definition's
    /// name must be fresh and every reference must resolve.  Pure: no
    /// state is touched.
    fn check_recipe(&self, r: &Recipe) -> (b: bool)
        requires
            self.inv(),
        ensures
            b == extend_ok(self@, r@),
    {
        let ghost m = self@;
        let ghost rm = r@;
        let ghost ta = tables_after(m, rm);
        let mut i: usize = 0;
        while i < r.tables.len()
            invariant
                self.inv(),
                m == self@,
                rm == r@,
                ta == tables_after(m, rm),
                i <= rm.tables.len(),
                r.tables@.len() == rm.tables.len(),
                forall|q: int| 0 <= q < i ==> table_def_ok(m, rm, q),
            decreases rm.tables.len() - i,
        {
            proof {
                assert(rm.tables[i as int] == r.tables@[i as int]@);
            }
            let d = &r.tables[i];
            if d.primary_key >= d.columns.len() {
                proof {
                    assert(!table_def_ok(m, rm, i as int));
                }
                return false;
            }
            if self.table(d.name.as_str()).is_ok() {
                proof {
                    assert(!table_def_ok(m, rm, i as int));
                }
                return false;
            }
            let mut w: usize = 0;
            while w < i
                invariant
                    m == self@,
                    rm == r@,
                    r.tables@.len() == rm.tables.len(),
                    w <= i,
                    (i as int) < rm.tables.len(),
                    rm.tables[i as int] == r.tables@[i as int]@,
                    forall|q: int|
                        0 <= q < w ==> (#[trigger] rm.tables[q]).name != rm.tables[i as int].name,
                decreases i - w,
            {
                proof {
                    assert(rm.tables[w as int] == r.tables@[w as int]@);
                }
                if str_eq(r.tables[w].name.as_str(), r.tables[i].name.as_str()) {
                    proof {
                        assert(!table_def_ok(m, rm, i as int));
                    }
                    return false;
                }
                w = w + 1;
            }
            proof {
                assert(table_def_ok(m, rm, i as int));
            }
            i = i + 1;
        }
        proof {
            lemma_tables_after_distinct(m, rm);
        }
        let mut v: usize = 0;
        while v < r.views.len()
            invariant
                self.inv(),
                m == self@,
                rm == r@,
                ta == tables_after(m, rm),
                forall|q: int| 0 <= q < rm.tables.len() ==> table_def_ok(m, rm, q),
                forall|a: int, b: int|
                    0 <= a < b < ta.len() ==> (#[trigger] ta[a]).name != (#[trigger] ta[b]).name,
                v <= rm.views.len(),
                r.views@.len() == rm.views.len(),
                r.tables@.len() == rm.tables.len(),
                forall|q: int| 0 <= q < v ==> view_def_ok(m, rm, q),
            decreases rm.views.len() - v,
        {
            proof {
                assert(rm.views[v as int] == r.views@[v as int]@);
            }
            let nm = r.views[v].name().clone();
            proof {
                assert(nm@ == view_def_name(rm.views[v as int]));
            }
            if self.view_handle(nm.as_str()).is_ok() {
                proof {
                    assert(!view_def_ok(m, rm, v as int));
                }
                return false;
            }
            let mut w: usize = 0;
            while w < v
                invariant
                    m == self@,
                    rm == r@,
                    r.views@.len() == rm.views.len(),
                    w <= v,
                    (v as int) < rm.views.len(),
                    nm@ == view_def_name(rm.views[v as int]),
                    forall|q: int|
                        0 <= q < w ==> view_def_name(#[trigger] rm.views[q]) != nm@,
                decreases v - w,
            {
                proof {
                    assert(rm.views[w as int] == r.views@[w as int]@);
                }
                if str_eq(r.views[w].name().as_str(), nm.as_str()) {
                    proof {
                        assert(!view_def_ok(m, rm, v as int));
                    }
                    return false;
                }
                w = w + 1;
            }
            // Resolve the referenced table (source or base) and check
            // the column index against its arity.
            let (tbl_name, col): (&String, usize) = match &r.views[v] {
                ViewDef::Count { source, group_col, .. } => (source, *group_col),
                ViewDef::Join { base, base_col, .. } => (base, *base_col),
            };
            let arity: usize = match self.table(tbl_name.as_str()) {
                Ok(h) => {
                    proof {
                        assert(ta[h@] == m.tables[h@]);
                        lemma_table_index_named(ta, tbl_name@, h@);
                        assert(m.tables[h@] == self.tables@[h.idx as int]@);
                    }
                    self.tables[h.idx].columns.len()
                },
                Err(_) => {
                    match find_table_def(&r.tables, tbl_name.as_str()) {
                        Some(di) => {
                            proof {
                                assert(ta[m.tables.len() + di] == new_table(
                                    rm.tables[di as int],
                                ));
                                lemma_table_index_named(
                                    ta,
                                    tbl_name@,
                                    m.tables.len() as int + di,
                                );
                                assert(rm.tables[di as int] == r.tables@[di as int]@);
                            }
                            r.tables[di].columns.len()
                        },
                        None => {
                            proof {
                                assert forall|q: int| 0 <= q < ta.len() implies (#[trigger] ta[q]).name
                                    != tbl_name@ by {
                                    if q >= m.tables.len() {
                                        assert(ta[q] == new_table(
                                            rm.tables[q - m.tables.len()],
                                        ));
                                    }
                                }
                                assert(!table_named(ta, tbl_name@));
                                assert(!view_def_ok(m, rm, v as int));
                            }
                            return false;
                        },
                    }
                },
            };
            if col >= arity {
                proof {
                    assert(!view_def_ok(m, rm, v as int));
                }
                return false;
            }
            // A join must also name an existing or just-declared count
            // view.
            match &r.views[v] {
                ViewDef::Count { .. } => {},
                ViewDef::Join { count_view, .. } => {
                    if self.find_count(count_view.as_str()).is_none() && !has_count_def(
                        &r.views,
                        count_view.as_str(),
                    ) {
                        proof {
                            assert(!count_named(m.counts, count_view@));
                            assert(!view_def_ok(m, rm, v as int));
                        }
                        return false;
                    }
                },
            }
            proof {
                assert(view_def_ok(m, rm, v as int));
            }
            v = v + 1;
        }
        true
    }

    /// Extend the current recipe: add the plan's tables and views.
    ///
    /// Validation comes first; an invalid plan is rejected with
    /// `SchemaError` and no effect (`Ok` exactly when `extend_ok`
    /// holds).  On success the old tables and views are untouched, so
    /// a view already serving lookups is never disturbed; each new
    /// view is populated by replaying the current content of its
    /// source tables before the call returns, so its first lookup
    /// already reflects every row present at the time of this call
    /// (see `extend_post`).
    pub fn extend_recipe(&mut self, r: &Recipe) -> (res: Result<(), Error>)
        requires
            old(self).inv(),
        ensures
            final(self).inv(),
            wf_model(final(self)@),
            match res {
                Ok(()) => extend_ok(old(self)@, r@) && extend_post(old(self)@, r@, final(self)@),
                Err(e) => e == Error::SchemaError && !extend_ok(old(self)@, r@)
                    && final(self)@ == old(self)@,
            },
    {
        if !self.check_recipe(r) {
            return Err(Error::SchemaError);
        }
        let ghost m0 = self@;
        let ghost rm = r@;
        let ghost ta = tables_after(m0, rm);
        proof {
            lemma_tables_after_distinct(m0, rm);
            assert forall|q: int| 0 <= q < ta.len() implies table_wf(#[trigger] ta[q]) by {
                if q >= m0.tables.len() {
                    assert(ta[q] == new_table(rm.tables[q - m0.tables.len()]));
                    assert(table_def_ok(m0, rm, q - m0.tables.len()));
                }
            }
        }
        // Phase one: create the new tables, empty.
        let mut i: usize = 0;
        while i < r.tables.len()
            invariant
                m0 == old(self)@,
                rm == r@,
                ta == tables_after(m0, rm),
                i <= rm.tables.len(),
                r.tables@.len() == rm.tables.len(),
                self@.tables == m0.tables + new_tables_of(rm.tables.take(i as int)),
                self@.counts == m0.counts,
                self@.joins == m0.joins,
                self.counts@ == old(self).counts@,
                self.joins@ == old(self).joins@,
            decreases rm.tables.len() - i,
        {
            proof {
                assert(rm.tables[i as int] == r.tables@[i as int]@);
            }
            let d = &r.tables[i];
            let tb = Table {
                name: d.name.clone(),
                columns: clone_cols(&d.columns),
                primary_key: d.primary_key,
                rows: Vec::new(),
                seq_no: 0,
            };
            proof {
                assert(tb@.rows =~= Seq::<Seq<Val>>::empty());
                assert(tb@ == new_table(rm.tables[i as int]));
            }
            self.tables.push(tb);
            proof {
                let prev = m0.tables + new_tables_of(rm.tables.take(i as int));
                let target = m0.tables + new_tables_of(rm.tables.take(i + 1));
                assert(rm.tables.take(i + 1).len() == i + 1);
                assert(new_tables_of(rm.tables.take(i + 1)).len() == i + 1);
                assert(prev.len() == m0.tables.len() + i);
                assert(self@.tables.len() == m0.tables.len() + i + 1);
                assert(self@.tables.len() == target.len());
                assert forall|q: int| 0 <= q < target.len() implies self@.tables[q]
                    == target[q] by {
                    assert(self@.tables[q] == self.tables@[q]@);
                    if q < prev.len() {
                        assert(self@.tables[q] == prev[q]);
                        if q >= m0.tables.len() {
                            assert(rm.tables.take(i as int)[q - m0.tables.len()]
                                == rm.tables.take(i + 1)[q - m0.tables.len()]);
                        }
                    } else {
                        assert(self@.tables[q] == tb@);
                        assert(target[q] == new_table(rm.tables[i as int]));
                    }
                }
                assert(self@.tables =~= target);
            }
            i = i + 1;
        }
        proof {
            assert(rm.tables.take(rm.tables.len() as int) =~= rm.tables);
            assert(self@.tables =~= ta);
        }
        // Phase two: create each count view and give it its initial
        // fill by replaying the source table's current rows.
        let mut v: usize = 0;
        while v < r.views.len()
            invariant
                m0 == old(self)@,
                rm == r@,
                ta == tables_after(m0, rm),
                wf_model(m0),
                extend_ok(m0, rm),
                forall|a: int, b: int|
                    0 <= a < b < ta.len() ==> (#[trigger] ta[a]).name != (#[trigger] ta[b]).name,
                forall|q: int| 0 <= q < ta.len() ==> table_wf(#[trigger] ta[q]),
                v <= rm.views.len(),
                r.views@.len() == rm.views.len(),
                self@.tables == ta,
                self@.joins == m0.joins,
                self.joins@ == old(self).joins@,
                self@.counts.len() >= m0.counts.len(),
                self.counts@.len() == self@.counts.len(),
                forall|q: int| 0 <= q < m0.counts.len() ==> #[trigger] self@.counts[q]
                    == m0.counts[q],
                forall|q: int|
                    m0.counts.len() <= q < self@.counts.len() ==> count_matches_def(
                        rm,
                        ta,
                        #[trigger] self@.counts[q],
                    ),
                forall|q: int|
                    m0.counts.len() <= q < self@.counts.len() ==> {
                        let c = #[trigger] self@.counts[q];
                        &&& 0 <= c.source < ta.len()
                        &&& 0 <= c.group_col < ta[c.source].cols.len()
                        &&& distinct_keys(c.entries)
                        &&& counts_accurate(ta[c.source].rows, c.group_col, c.entries)
                        &&& forall|k: Val|
                            #[trigger] has_key(c.entries, k) <==> count_matching(
                                ta[c.source].rows,
                                c.group_col,
                                k,
                            ) > 0
                    },
                forall|a: int, b: int|
                    0 <= a < b < self@.counts.len() ==> (#[trigger] self@.counts[a]).name != (
                    #[trigger] self@.counts[b]).name,
                forall|q: int, w: int|
                    m0.counts.len() <= q < self@.counts.len() && v <= w < rm.views.len() ==> (
                    #[trigger] self@.counts[q]).name != view_def_name(#[trigger] rm.views[w]),
                forall|w: int|
                    0 <= w < v && (#[trigger] rm.views[w]) is Count ==> count_named(
                        self@.counts,
                        view_def_name(rm.views[w]),
                    ),
            decreases rm.views.len() - v,
        {
            proof {
                assert(rm.views[v as int] == r.views@[v as int]@);
                assert(view_def_ok(m0, rm, v as int));
            }
            match &r.views[v] {
                ViewDef::Join { .. } => {},
                ViewDef::Count { name, source, group_col } => {
                    let si = match self.table(source.as_str()) {
                        Ok(h) => h.idx,
                        Err(_) => {
                            proof {
                                assert(false);
                            }
                            return Err(Error::SchemaError);
                        },
                    };
                    let gc = *group_col;
                    proof {
                        lemma_table_index_named(ta, source@, si as int);
                        assert(ta[si as int].cols.len() > gc);
                        assert(ta[si as int] == self.tables@[si as int]@);
                    }
                    let ghost src_rows = ta[si as int].rows;
                    let mut cv = CountView {
                        name: name.clone(),
                        source: si,
                        group_col: gc,
                        entries: Vec::new(),
                    };
                    proof {
                        assert(cv@.entries =~= Seq::<crate::views::EntryModel>::empty());
                        assert(src_rows.take(0) =~= Seq::<Seq<Val>>::empty());
                        assert forall|k: Val| #[trigger] count_of(cv@.entries, k) == count_matching(
                            src_rows.take(0),
                            gc as int,
                            k,
                        ) && !has_key(cv@.entries, k) by {
                            lemma_count_zero(src_rows.take(0), gc as int, k);
                        }
                    }
                    let mut f: usize = 0;
                    while f < self.tables[si].rows.len()
                        invariant
                            self@.tables == ta,
                            (si as int) < ta.len(),
                            (si as int) < self.tables@.len(),
                            src_rows == ta[si as int].rows,
                            table_wf(ta[si as int]),
                            gc < ta[si as int].cols.len(),
                            cv@.source == si as int,
                            cv@.group_col == gc as int,
                            cv@.name == name@,
                            f <= src_rows.len(),
                            distinct_keys(cv@.entries),
                            forall|k: Val|
                                #[trigger] count_of(cv@.entries, k) == count_matching(
                                    src_rows.take(f as int),
                                    gc as int,
                                    k,
                                ),
                            forall|k: Val|
                                #[trigger] has_key(cv@.entries, k) <==> count_matching(
                                    src_rows.take(f as int),
                                    gc as int,
                                    k,
                                ) > 0,
                        decreases src_rows.len() - f,
                    {
                        proof {
                            assert(ta[si as int] == self.tables@[si as int]@);
                            assert(src_rows[f as int] == self.tables@[si as int]@.rows[f as int]);
                            assert(src_rows[f as int].len() == ta[si as int].cols.len());
                        }
                        let key = self.tables[si].rows[f][gc].duplicate();
                        let ghost es_before = cv@.entries;
                        proof {
                            assert(key@ == src_rows[f as int][gc as int]);
                            lemma_count_le_len(src_rows.take(f as int), gc as int, key@);
                            assert(src_rows.take(f as int).len() == f as int);
                        }
                        cv.bump_entry(&key);
                        proof {
                            assert(cv@.entries == bump(es_before, key@));
                            assert(src_rows.take(f + 1) =~= src_rows.take(f as int).push(
                                src_rows[f as int],
                            ));
                            assert forall|k: Val| #[trigger] count_of(cv@.entries, k)
                                == count_matching(src_rows.take(f + 1), gc as int, k) by {
                                lemma_bump(es_before, key@, k);
                                lemma_count_push(
                                    src_rows.take(f as int),
                                    gc as int,
                                    k,
                                    src_rows[f as int],
                                );
                            }
                            assert forall|k: Val| #[trigger] has_key(cv@.entries, k)
                                <==> count_matching(src_rows.take(f + 1), gc as int, k) > 0 by {
                                lemma_bump(es_before, key@, k);
                                lemma_count_push(
                                    src_rows.take(f as int),
                                    gc as int,
                                    k,
                                    src_rows[f as int],
                                );
                            }
                        }
                        f = f + 1;
                    }
                    proof {
                        assert(src_rows.take(src_rows.len() as int) =~= src_rows);
                    }
                    let ghost pc = self@.counts;
                    self.counts.push(cv);
                    proof {
                        assert(self@.counts =~= pc.push(cv@));
                        let nq = pc.len() as int;
                        assert(self@.counts[nq] == cv@);
                        assert(cv@.name == view_def_name(rm.views[v as int]));
                        assert(cv@.source == table_index_named(ta, source@));
                        assert(count_matches_def(rm, ta, cv@)) by {
                            assert((v as int) < rm.views.len() && (rm.views[v as int]) is Count
                                && cv@.name == view_def_name(rm.views[v as int]) && cv@.source
                                == table_index_named(ta, rm.views[v as int]->Count_source)
                                && cv@.group_col == rm.views[v as int]->Count_group_col);
                        }
                        assert forall|a: int| 0 <= a < nq implies (#[trigger] pc[a]).name != cv@.name by {
                            if a < m0.counts.len() {
                                assert(pc[a] == m0.counts[a]);
                                assert(!count_named(m0.counts, view_def_name(rm.views[v as int])));
                            }
                        }
                        assert forall|q: int, w: int|
                            m0.counts.len() <= q < self@.counts.len() && v + 1 <= w
                                < rm.views.len() implies (#[trigger] self@.counts[q]).name
                            != view_def_name(#[trigger] rm.views[w]) by {
                            if q == nq {
                                assert(view_def_ok(m0, rm, w));
                                assert(view_def_name(rm.views[v as int]) != view_def_name(
                                    rm.views[w],
                                ));
                            }
                        }
                        assert forall|w: int|
                            0 <= w < v + 1 && (#[trigger] rm.views[w]) is Count implies count_named(
                            self@.counts,
                            view_def_name(rm.views[w]),
                        ) by {
                            if w < v as int {
                                assert(count_named(pc, view_def_name(rm.views[w])));
                                let a = choose|a: int|
                                    0 <= a < pc.len() && (#[trigger] pc[a]).name == view_def_name(
                                        rm.views[w],
                                    );
                                assert(self@.counts[a].name == view_def_name(rm.views[w]));
                            } else {
                                assert(self@.counts[nq].name == view_def_name(rm.views[w]));
                            }
                        }
                    }
                },
            }
            v = v + 1;
        }
        proof {
            assert(self@.counts.len() >= m0.counts.len());
        }
        // Phase three: create each join view, with its initial fill
        // derived from the base table's current rows and the (now
        // complete) count views.
        let ghost mc = self@.counts;
        let mut v2: usize = 0;
        while v2 < r.views.len()
            invariant
                m0 == old(self)@,
                rm == r@,
                ta == tables_after(m0, rm),
                wf_model(m0),
                extend_ok(m0, rm),
                forall|a: int, b: int|
                    0 <= a < b < ta.len() ==> (#[trigger] ta[a]).name != (#[trigger] ta[b]).name,
                forall|q: int| 0 <= q < ta.len() ==> table_wf(#[trigger] ta[q]),
                v2 <= rm.views.len(),
                r.views@.len() == rm.views.len(),
                self@.tables == ta,
                self@.counts == mc,
                self.counts@.len() == mc.len(),
                mc.len() >= m0.counts.len(),
                forall|q: int| 0 <= q < m0.counts.len() ==> #[trigger] mc[q] == m0.counts[q],
                forall|q: int|
                    m0.counts.len() <= q < self@.counts.len() ==> count_matches_def(
                        rm,
                        ta,
                        #[trigger] self@.counts[q],
                    ),
                forall|q: int|
                    m0.counts.len() <= q < mc.len() ==> {
                        let c = #[trigger] mc[q];
                        &&& 0 <= c.source < ta.len()
                        &&& 0 <= c.group_col < ta[c.source].cols.len()
                        &&& distinct_keys(c.entries)
                        &&& counts_accurate(ta[c.source].rows, c.group_col, c.entries)
                        &&& forall|k: Val|
                            #[trigger] has_key(c.entries, k) <==> count_matching(
                                ta[c.source].rows,
                                c.group_col,
                                k,
                            ) > 0
                    },
                forall|a: int, b: int|
                    0 <= a < b < mc.len() ==> (#[trigger] mc[a]).name != (#[trigger] mc[b]).name,
                forall|w: int|
                    0 <= w < rm.views.len() && (#[trigger] rm.views[w]) is Count ==> count_named(
                        mc,
                        view_def_name(rm.views[w]),
                    ),
                self@.joins.len() >= m0.joins.len(),
                self.joins@.len() == self@.joins.len(),
                forall|q: int| 0 <= q < m0.joins.len() ==> #[trigger] self@.joins[q]
                    == m0.joins[q],
                forall|q: int| 0 <= q < m0.joins.len() ==> (#[trigger] self.joins@[q]).rows
                    == old(self).joins@[q].rows,
                forall|q: int|
                    m0.joins.len() <= q < self@.joins.len() ==> join_matches_def(
                        rm,
                        ta,
                        mc,
                        #[trigger] self@.joins[q],
                    ),
                forall|q: int|
                    m0.joins.len() <= q < self@.joins.len() ==> {
                        let jm = #[trigger] self@.joins[q];
                        &&& 0 <= jm.base < ta.len()
                        &&& 0 <= jm.count_view < mc.len()
                        &&& 0 <= jm.base_col < ta[jm.base].cols.len()
                        &&& self.joins@[q].rows.deep_view() == join_rows(
                            ta[jm.base].rows,
                            jm.base_col,
                            mc[jm.count_view].entries,
                        )
                    },
                forall|a: int, b: int|
                    0 <= a < b < self@.joins.len() ==> (#[trigger] self@.joins[a]).name != (
                    #[trigger] self@.joins[b]).name,
                forall|q: int, w: int|
                    m0.joins.len() <= q < self@.joins.len() && v2 <= w < rm.views.len() ==> (
                    #[trigger] self@.joins[q]).name != view_def_name(#[trigger] rm.views[w]),
                forall|w: int|
                    0 <= w < v2 && (#[trigger] rm.views[w]) is Join ==> join_named(
                        self@.joins,
                        view_def_name(rm.views[w]),
                    ),
            decreases rm.views.len() - v2,
        {
            proof {
                assert(rm.views[v2 as int] == r.views@[v2 as int]@);
                assert(view_def_ok(m0, rm, v2 as int));
            }
            match &r.views[v2] {
                ViewDef::Count { .. } => {},
                ViewDef::Join { name, base, base_col, count_view } => {
                    let bi = match self.table(base.as_str()) {
                        Ok(h) => h.idx,
                        Err(_) => {
                            proof {
                                assert(false);
                            }
                            return Err(Error::SchemaError);
                        },
                    };
                    let bc = *base_col;
                    let cvi = match self.find_count(count_view.as_str()) {
                        Some(ci) => ci,
                        None => {
                            proof {
                                if count_named(m0.counts, count_view@) {
                                    let a = count_index_named(m0.counts, count_view@);
                                    assert(mc[a].name == count_view@);
                                } else {
                                    assert(def_count_named(rm.views, count_view@));
                                    let w3 = choose|w3: int|
                                        0 <= w3 < rm.views.len() && (#[trigger] rm.views[w3]) is Count
                                            && view_def_name(rm.views[w3]) == count_view@;
                                    assert(count_named(mc, count_view@));
                                    let a = count_index_named(mc, count_view@);
                                    assert(mc[a].name == count_view@);
                                }
                                assert(false);
                            }
                            return Err(Error::SchemaError);
                        },
                    };
                    proof {
                        lemma_table_index_named(ta, base@, bi as int);
                        assert(ta[bi as int].cols.len() > bc);
                        assert(ta[bi as int] == self.tables@[bi as int]@);
                        lemma_count_index_named(mc, count_view@, cvi as int);
                        assert(distinct_keys(mc[cvi as int].entries));
                        assert(mc[cvi as int] == self.counts@[cvi as int]@);
                    }
                    let ghost base_rows = ta[bi as int].rows;
                    let ghost es = mc[cvi as int].entries;
                    let mut mat: Vec<Vec<DataType>> = Vec::new();
                    proof {
                        assert(mat.deep_view() =~= join_rows(base_rows.take(0), bc as int, es));
                    }
                    let mut f: usize = 0;
                    while f < self.tables[bi].rows.len()
                        invariant
                            self@.tables == ta,
                            self@.counts == mc,
                            (bi as int) < ta.len(),
                            (bi as int) < self.tables@.len(),
                            (cvi as int) < mc.len(),
                            (cvi as int) < self.counts@.len(),
                            mc[cvi as int] == self.counts@[cvi as int]@,
                            base_rows == ta[bi as int].rows,
                            es == mc[cvi as int].entries,
                            distinct_keys(es),
                            table_wf(ta[bi as int]),
                            bc < ta[bi as int].cols.len(),
                            f <= base_rows.len(),
                            mat.deep_view() == join_rows(base_rows.take(f as int), bc as int, es),
                        decreases base_rows.len() - f,
                    {
                        proof {
                            assert(ta[bi as int] == self.tables@[bi as int]@);
                            assert(base_rows[f as int] == self.tables@[bi as int]@.rows[f as int]);
                            assert(base_rows[f as int].len() == ta[bi as int].cols.len());
                        }
                        let cell = match self.counts[cvi].get(&self.tables[bi].rows[f][bc]) {
                            Some(n) => DataType::Int(n as i128),
                            None => DataType::Null,
                        };
                        proof {
                            assert(cell@ == count_cell(es, base_rows[f as int][bc as int]));
                        }
                        let mut jr = clone_row(&self.tables[bi].rows[f]);
                        jr.push(cell);
                        proof {
                            assert(jr.deep_view() =~= joined_row(
                                base_rows[f as int],
                                es,
                                bc as int,
                            ));
                        }
                        proof {
                            assert(mat.deep_view().len() == f as int);
                            assert(mat@.len() == f as int);
                        }
                        mat.push(jr);
                        proof {
                            let target = join_rows(base_rows.take(f + 1), bc as int, es);
                            assert(base_rows.take(f + 1).len() == f + 1);
                            assert(mat@.len() == f + 1);
                            assert(mat.deep_view().len() == f + 1);
                            assert(mat.deep_view().len() == target.len());
                            assert forall|q: int| 0 <= q < target.len() implies mat.deep_view()[q]
                                == target[q] by {
                                assert(base_rows.take(f + 1)[q] == base_rows[q]);
                                if q < f as int {
                                    assert(mat.deep_view()[q] == join_rows(
                                        base_rows.take(f as int),
                                        bc as int,
                                        es,
                                    )[q]);
                                    assert(base_rows.take(f as int)[q] == base_rows[q]);
                                } else {
                                    assert(mat.deep_view()[q] == jr.deep_view());
                                }
                            }
                            assert(mat.deep_view() =~= target);
                        }
                        f = f + 1;
                    }
                    proof {
                        assert(base_rows.take(base_rows.len() as int) =~= base_rows);
                    }
                    let ghost pj = self@.joins;
                    let jv = JoinView {
                        name: name.clone(),
                        base: bi,
                        base_col: bc,
                        count_view: cvi,
                        rows: mat,
                    };
                    self.joins.push(jv);
                    proof {
                        assert(self@.joins =~= pj.push(
                            JoinModel {
                                name: name@,
                                base: bi as int,
                                base_col: bc as int,
                                count_view: cvi as int,
                            },
                        ));
                        let nq = pj.len() as int;
                        assert(self@.joins[nq].name == view_def_name(rm.views[v2 as int]));
                        assert(join_matches_def(rm, ta, mc, self@.joins[nq])) by {
                            assert((v2 as int) < rm.views.len() && (rm.views[v2 as int]) is Join
                                && self@.joins[nq].name == view_def_name(rm.views[v2 as int])
                                && self@.joins[nq].base == table_index_named(
                                ta,
                                rm.views[v2 as int]->Join_base,
                            ) && self@.joins[nq].base_col == rm.views[v2 as int]->Join_base_col
                                && self@.joins[nq].count_view == count_index_named(
                                mc,
                                rm.views[v2 as int]->Join_count_view,
                            ));
                        }
                        assert forall|a: int| 0 <= a < nq implies (#[trigger] pj[a]).name
                            != name@ by {
                            if a < m0.joins.len() {
                                assert(pj[a] == m0.joins[a]);
                                assert(!join_named(m0.joins, view_def_name(rm.views[v2 as int])));
                            }
                        }
                        assert forall|q: int, w: int|
                            m0.joins.len() <= q < self@.joins.len() && v2 + 1 <= w
                                < rm.views.len() implies (#[trigger] self@.joins[q]).name
                            != view_def_name(#[trigger] rm.views[w]) by {
                            if q == nq {
                                assert(view_def_ok(m0, rm, w));
                                assert(view_def_name(rm.views[v2 as int]) != view_def_name(
                                    rm.views[w],
                                ));
                            }
                        }
                        assert forall|w: int|
                            0 <= w < v2 + 1 && (#[trigger] rm.views[w]) is Join implies join_named(
                            self@.joins,
                            view_def_name(rm.views[w]),
                        ) by {
                            if w < v2 as int {
                                assert(join_named(pj, view_def_name(rm.views[w])));
                                let a = choose|a: int|
                                    0 <= a < pj.len() && (#[trigger] pj[a]).name == view_def_name(
                                        rm.views[w],
                                    );
                                assert(self@.joins[a].name == view_def_name(rm.views[w]));
                            } else {
                                assert(self@.joins[nq].name == view_def_name(rm.views[w]));
                            }
                        }
                    }
                },
            }
            v2 = v2 + 1;
        }
        proof {
            let fm = self@;
            assert(forall|q: int| 0 <= q < fm.tables.len() ==> table_wf(#[trigger] fm.tables[q]));
            assert forall|c: int| 0 <= c < fm.counts.len() implies {
                let cv = #[trigger] fm.counts[c];
                &&& 0 <= cv.source < fm.tables.len()
                &&& 0 <= cv.group_col < fm.tables[cv.source].cols.len()
                &&& distinct_keys(cv.entries)
                &&& counts_accurate(fm.tables[cv.source].rows, cv.group_col, cv.entries)
            } by {
                if c < m0.counts.len() {
                    assert(mc[c] == m0.counts[c]);
                    assert(ta[m0.counts[c].source] == m0.tables[m0.counts[c].source]);
                }
            }
            assert forall|j: int| 0 <= j < fm.joins.len() implies join_wf(
                fm,
                #[trigger] fm.joins[j],
            ) by {
                if j < m0.joins.len() {
                    assert(fm.joins[j] == m0.joins[j]);
                    assert(join_wf(m0, m0.joins[j]));
                    assert(ta[m0.joins[j].base] == m0.tables[m0.joins[j].base]);
                }
            }
            assert forall|a: int, b: int|
                0 <= a < fm.counts.len() && 0 <= b < fm.joins.len() implies (
            #[trigger] fm.counts[a]).name != (#[trigger] fm.joins[b]).name by {
                if fm.counts[a].name == fm.joins[b].name {
                    if a < m0.counts.len() && b < m0.joins.len() {
                        assert(false);
                    } else if a < m0.counts.len() {
                        let wj = choose|w: int|
                            {
                                &&& 0 <= w < rm.views.len()
                                &&& (#[trigger] rm.views[w]) is Join
                                &&& fm.joins[b].name == view_def_name(rm.views[w])
                                &&& fm.joins[b].base == table_index_named(
                                    ta,
                                    rm.views[w]->Join_base,
                                )
                                &&& fm.joins[b].base_col == rm.views[w]->Join_base_col
                                &&& fm.joins[b].count_view == count_index_named(
                                    mc,
                                    rm.views[w]->Join_count_view,
                                )
                            };
                        assert(view_def_ok(m0, rm, wj));
                        assert(count_named(m0.counts, view_def_name(rm.views[wj])));
                        assert(false);
                    } else if b < m0.joins.len() {
                        let wc = choose|w: int|
                            {
                                &&& 0 <= w < rm.views.len()
                                &&& (#[trigger] rm.views[w]) is Count
                                &&& mc[a].name == view_def_name(rm.views[w])
                                &&& mc[a].source == table_index_named(
                                    ta,
                                    rm.views[w]->Count_source,
                                )
                                &&& mc[a].group_col == rm.views[w]->Count_group_col
                            };
                        assert(view_def_ok(m0, rm, wc));
                        assert(join_named(m0.joins, view_def_name(rm.views[wc])));
                        assert(false);
                    } else {
                        let wc = choose|w: int|
                            {
                                &&& 0 <= w < rm.views.len()
                                &&& (#[trigger] rm.views[w]) is Count
                                &&& mc[a].name == view_def_name(rm.views[w])
                                &&& mc[a].source == table_index_named(
                                    ta,
                                    rm.views[w]->Count_source,
                                )
                                &&& mc[a].group_col == rm.views[w]->Count_group_col
                            };
                        let wj = choose|w: int|
                            {
                                &&& 0 <= w < rm.views.len()
                                &&& (#[trigger] rm.views[w]) is Join
                                &&& fm.joins[b].name == view_def_name(rm.views[w])
                                &&& fm.joins[b].base == table_index_named(
                                    ta,
                                    rm.views[w]->Join_base,
                                )
                                &&& fm.joins[b].base_col == rm.views[w]->Join_base_col
                                &&& fm.joins[b].count_view == count_index_named(
                                    mc,
                                    rm.views[w]->Join_count_view,
                                )
                            };
                        if wc < wj {
                            assert(view_def_ok(m0, rm, wj));
                            assert(view_def_name(rm.views[wc]) != view_def_name(rm.views[wj]));
                        } else {
                            assert(view_def_ok(m0, rm, wc));
                            assert(view_def_name(rm.views[wj]) != view_def_name(rm.views[wc]));
                        }
                        assert(false);
                    }
                }
            }
            assert(wf_model(fm));
            assert forall|q: int| 0 <= q < self.joins@.len() implies (
            #[trigger] self.joins@[q]).rows.deep_view() == join_rows(
                fm.tables[self.joins@[q]@.base].rows,
                self.joins@[q]@.base_col,
                fm.counts[self.joins@[q]@.count_view].entries,
            ) by {
                if q < m0.joins.len() {
                    let jm = m0.joins[q];
                    assert(self@.joins[q] == self.joins@[q]@);
                    assert(self.joins@[q]@ == jm);
                    assert(self.joins@[q].rows == old(self).joins@[q].rows);
                    assert(old(self).joins@[q].rows.deep_view() == join_rows(
                        m0.tables[jm.base].rows,
                        jm.base_col,
                        m0.counts[jm.count_view].entries,
                    ));
                    assert(join_wf(m0, jm));
                    assert(fm.tables[jm.base] == m0.tables[jm.base]);
                    assert(fm.counts[jm.count_view] == m0.counts[jm.count_view]);
                } else {
                    assert(self.joins@[q]@ == fm.joins[q]);
                }
            }
            assert(self.joins_materialized());
            assert(extend_post(m0, rm, fm));
        }
        Ok(())
    }

    /// Install the initial recipe.  The engine must be fresh: on a
    /// non-empty engine the call is rejected with `SchemaError` (use
    /// `extend_recipe` to evolve an installed recipe).
    pub fn install_recipe(&mut self, r: &Recipe) -> (res: Result<(), Error>)
        requires
            old(self).inv(),
        ensures
            final(self).inv(),
            wf_model(final(self)@),
            match res {
                Ok(()) => old(self)@.tables.len() == 0 && old(self)@.counts.len() == 0 && old(
                    self,
                )@.joins.len() == 0 && extend_ok(old(self)@, r@) && extend_post(
                    old(self)@,
                    r@,
                    final(self)@,
                ),
                Err(e) => {
                    &&& e == Error::SchemaError
                    &&& final(self)@ == old(self)@
                    &&& !(old(self)@.tables.len() == 0 && old(self)@.counts.len() == 0 && old(
                        self,
                    )@.joins.len() == 0 && extend_ok(old(self)@, r@))
                },
            },
    {
        if self.tables.len() != 0 || self.counts.len() != 0 || self.joins.len() != 0 {
            return Err(Error::SchemaError);
        }
        self.extend_recipe(r)
    }
}

/// Once every table definition is valid, the combined table list has
/// pairwise-distinct names.
proof fn lemma_tables_after_distinct(m: ControllerModel, rm: RecipeModel)
    requires
        wf_model(m),
        forall|q: int| 0 <= q < rm.tables.len() ==> table_def_ok(m, rm, q),
    ensures
        forall|a: int, b: int|
            0 <= a < b < tables_after(m, rm).len() ==> (#[trigger] tables_after(m, rm)[a]).name != (
            #[trigger] tables_after(m, rm)[b]).name,
{
    let ta = tables_after(m, rm);
    let n = m.tables.len() as int;
    assert forall|a: int, b: int| 0 <= a < b < ta.len() implies (#[trigger] ta[a]).name != (
    #[trigger] ta[b]).name by {
        if b >= n {
            assert(ta[b] == new_table(rm.tables[b - n]));
            assert(table_def_ok(m, rm, b - n));
            if a >= n {
                assert(ta[a] == new_table(rm.tables[a - n]));
            } else {
                assert(ta[a] == m.tables[a]);
                assert(!table_named(m.tables, rm.tables[b - n].name));
            }
        }
    }
}

/// Find a table definition by name in a plan.
fn find_table_def(defs: &Vec<TableDef>, name: &str) -> (r: Option<usize>)
    ensures
        match r {
            Some(i) => (i as int) < defs.deep_view().len() && defs.deep_view()[i as int].name
                == name@,
            None => forall|q: int|
                0 <= q < defs.deep_view().len() ==> (#[trigger] defs.deep_view()[q]).name != name@,
        },
{
    let mut i: usize = 0;
    while i < defs.len()
        invariant
            i <= defs@.len(),
            forall|q: int| 0 <= q < i ==> (#[trigger] defs.deep_view()[q]).name != name@,
        decreases defs@.len() - i,
    {
        proof {
            assert(defs.deep_view()[i as int] == defs@[i as int]@);
        }
        if str_eq(defs[i].name.as_str(), name) {
            return Some(i);
        }
        i = i + 1;
    }
    None
}

/// Whether a plan declares a count view of this name.
fn has_count_def(views: &Vec<ViewDef>, name: &str) -> (r: bool)
    ensures
        r == def_count_named(views.deep_view(), name@),
{
    let mut i: usize = 0;
    while i < views.len()
        invariant
            i <= views@.len(),
            forall|q: int|
                0 <= q < i ==> !((#[trigger] views.deep_view()[q]) is Count && view_def_name(
                    views.deep_view()[q],
                ) == name@),
        decreases views@.len() - i,
    {
        proof {
            assert(views.deep_view()[i as int] == views@[i as int]@);
        }
        match &views[i] {
            ViewDef::Count { name: n, .. } => {
                if str_eq(n.as_str(), name) {
                    proof {
                        assert(views.deep_view()[i as int] is Count);
                        assert(view_def_name(views.deep_view()[i as int]) == name@);
                    }
                    return true;
                }
            },
            ViewDef::Join { .. } => {},
        }
        i = i + 1;
    }
    false
}

/// With pairwise-distinct table names, a name identifies one table.
pub proof fn lemma_table_index_named(tables: Seq<TableModel>, name: Seq<char>, i: int)
    requires
        forall|a: int, b: int|
            0 <= a < b < tables.len() ==> (#[trigger] tables[a]).name != (#[trigger] tables[b]).name,
        0 <= i < tables.len(),
        tables[i].name == name,
    ensures
        table_named(tables, name),
        table_index_named(tables, name) == i,
{
    let j = table_index_named(tables, name);
    if j != i {
        assert(tables[j].name == name);
        assert(false);
    }
}

/// With pairwise-distinct count-view names, a name identifies one
/// count view.
proof fn lemma_count_index_named(counts: Seq<CountModel>, name: Seq<char>, i: int)
    requires
        forall|a: int, b: int|
            0 <= a < b < counts.len() ==> (#[trigger] counts[a]).name != (#[trigger] counts[b]).name,
        0 <= i < counts.len(),
        counts[i].name == name,
    ensures
        count_named(counts, name),
        count_index_named(counts, name) == i,
{
    let j = count_index_named(counts, name);
    if j != i {
        assert(counts[j].name == name);
        assert(false);
    }
}

/// Equality of engine states up to the per-table sequence numbers:
/// the same tables with the same live rows, the same count-view
/// entries, and the same join definitions — everything a lookup can
/// observe.
pub open spec fn same_content(a: ControllerModel, b: ControllerModel) -> bool {
    &&& a.tables.len() == b.tables.len()
    &&& forall|t: int|
        0 <= t < a.tables.len() ==> {
            let x = #[trigger] a.tables[t];
            let y = #[trigger] b.tables[t];
            x.name == y.name && x.cols == y.cols && x.pk == y.pk && x.rows == y.rows
        }
    &&& a.counts == b.counts
    &&& a.joins == b.joins
}

/// No two live rows of a well-formed table ever share a primary-key
/// value: the uniqueness half of the primary-key law (an insert that
/// would break it is rejected with `DuplicateKey` and leaves the state
/// unchanged, by the contract of `insert`).
pub proof fn lemma_primary_keys_unique(m: ControllerModel, t: int, i: int, j: int)
    requires
        wf_model(m),
        0 <= t < m.tables.len(),
        0 <= i < m.tables[t].rows.len(),
        0 <= j < m.tables[t].rows.len(),
        i != j,
    ensures
        m.tables[t].rows[i][m.tables[t].pk] != m.tables[t].rows[j][m.tables[t].pk],
{
}

/// The core correctness law: in a well-formed engine, the count a
/// count view records for any group key equals the number of live
/// source rows in that group, recomputed independently from the base
/// table.
pub proof fn lemma_count_view_accurate(m: ControllerModel, c: int, k: Val)
    requires
        wf_model(m),
        0 <= c < m.counts.len(),
    ensures
        count_of(m.counts[c].entries, k) == count_matching(
            m.tables[m.counts[c].source].rows,
            m.counts[c].group_col,
            k,
        ),
{
}

/// Round-trip law: inserting a row and then deleting it by its
/// primary-key value restores the observable engine state exactly —
/// same live rows, same count entries, same derived join content.
///
/// The one proviso is that each dependent count view already has an
/// entry for the row's group key (any key inserted before): for a
/// fresh group key, the delete leaves behind an entry with count zero
/// rather than no entry, by the floor-at-zero policy.
pub proof fn lemma_insert_then_delete_restores(m: ControllerModel, t: int, row: Seq<Val>)
    requires
        wf_model(m),
        0 <= t < m.tables.len(),
        insert_outcome(m, t, row) is None,
        forall|c: int|
            0 <= c < m.counts.len() && (#[trigger] m.counts[c]).source == t ==> has_key(
                m.counts[c].entries,
                row[m.counts[c].group_col],
            ),
    ensures
        same_content(tr_delete(tr_insert(m, t, row), t, row[m.tables[t].pk]), m),
        forall|j: int|
            0 <= j < m.joins.len() ==> join_rows(
                tr_delete(tr_insert(m, t, row), t, row[m.tables[t].pk]).tables[(
                #[trigger] m.joins[j]).base].rows,
                m.joins[j].base_col,
                tr_delete(tr_insert(m, t, row), t, row[m.tables[t].pk]).counts[m.joins[j].count_view].entries,
            ) == join_rows(
                m.tables[m.joins[j].base].rows,
                m.joins[j].base_col,
                m.counts[m.joins[j].count_view].entries,
            ),
{
    let tab = m.tables[t];
    let k = row[tab.pk];
    let m1 = tr_insert(m, t, row);
    let m2 = tr_delete(m1, t, k);
    lemma_tr_insert_wf(m, t, row);
    let n = tab.rows.len() as int;
    assert(m1.tables[t].rows[n] == row);
    assert(key_present(m1, t, k));
    let i = row_at(m1, t, k);
    assert(m1.tables[t].rows[i][tab.pk] == k);
    if i != n {
        assert(m.tables[t].rows[i] == m1.tables[t].rows[i]);
        assert(key_present(m, t, k));
        assert(false);
    }
    assert(m2.tables[t].rows =~= tab.rows) by {
        assert(m1.tables[t].rows.remove(n) =~= tab.rows);
    }
    assert forall|c: int| 0 <= c < m.counts.len() implies #[trigger] m2.counts[c] == m.counts[c] by {
        let cv = m.counts[c];
        if cv.source == t {
            let k0 = row[cv.group_col];
            assert(m1.counts[c].entries == bump(cv.entries, k0));
            assert(m2.counts[c].entries == debump(bump(cv.entries, k0), k0));
            lemma_debump_bump(cv.entries, k0);
        }
    }
    assert(m2.counts =~= m.counts);
    assert(m2.joins == m.joins);
    assert(same_content(m2, m)) by {
        assert(forall|q: int|
            0 <= q < m.tables.len() && q != t ==> #[trigger] m2.tables[q] == m.tables[q]);
    }
    assert forall|j: int| 0 <= j < m.joins.len() implies join_rows(
        m2.tables[(#[trigger] m.joins[j]).base].rows,
        m.joins[j].base_col,
        m2.counts[m.joins[j].count_view].entries,
    ) == join_rows(
        m.tables[m.joins[j].base].rows,
        m.joins[j].base_col,
        m.counts[m.joins[j].count_view].entries,
    ) by {
        let jm = m.joins[j];
        assert(join_wf(m, jm));
        assert(m2.tables[jm.base].rows == m.tables[jm.base].rows);
        assert(m2.counts[jm.count_view] == m.counts[jm.count_view]);
    }
}

/// A successful delete preserves every well-formedness condition.
proof fn lemma_tr_delete_wf(m: ControllerModel, t: int, k: Val)
    requires
        wf_model(m),
        0 <= t < m.tables.len(),
        delete_outcome(m, t, k) is None,
    ensures
        wf_model(tr_delete(m, t, k)),
{
    let m1 = tr_delete(m, t, k);
    let tab = m.tables[t];
    let i = row_at(m, t, k);
    let dead = tab.rows[i];
    assert(0 <= i < tab.rows.len());
    assert(table_wf(m1.tables[t]));
    assert forall|c: int| 0 <= c < m1.counts.len() implies {
        let cv = #[trigger] m1.counts[c];
        &&& 0 <= cv.source < m1.tables.len()
        &&& 0 <= cv.group_col < m1.tables[cv.source].cols.len()
        &&& distinct_keys(cv.entries)
        &&& counts_accurate(m1.tables[cv.source].rows, cv.group_col, cv.entries)
    } by {
        let cv0 = m.counts[c];
        if cv0.source == t {
            let k0 = dead[cv0.group_col];
            assert(row_matches(dead, cv0.group_col, k0));
            lemma_count_pos(tab.rows, cv0.group_col, k0, i);
            assert(count_of(cv0.entries, k0) >= 1);
            lemma_debump(cv0.entries, k0, k0);
            assert forall|k2: Val| #[trigger] count_of(debump(cv0.entries, k0), k2)
                == count_matching(m1.tables[t].rows, cv0.group_col, k2) by {
                lemma_debump(cv0.entries, k0, k2);
                lemma_count_remove(tab.rows, cv0.group_col, k2, i);
                assert(count_of(cv0.entries, k2) == count_matching(tab.rows, cv0.group_col, k2));
            }
        } else {
            assert(m1.tables[cv0.source].rows == m.tables[cv0.source].rows);
            assert(counts_accurate(m1.tables[cv0.source].rows, cv0.group_col, cv0.entries));
        }
    }
    assert(forall|j: int| 0 <= j < m1.joins.len() ==> join_wf(m1, #[trigger] m1.joins[j]));
}

/// A successful insert preserves every well-formedness condition:
/// the appended row respects the schema, primary keys stay unique,
/// and every count view's entries stay accurate for every key.
proof fn lemma_tr_insert_wf(m: ControllerModel, t: int, row: Seq<Val>)
    requires
        wf_model(m),
        0 <= t < m.tables.len(),
        insert_outcome(m, t, row) is None,
    ensures
        wf_model(tr_insert(m, t, row)),
{
    let m1 = tr_insert(m, t, row);
    let tab = m.tables[t];
    assert(table_wf(m1.tables[t])) by {
        assert(forall|i: int|
            0 <= i < tab.rows.len() ==> (#[trigger] tab.rows[i])[tab.pk] != row[tab.pk]);
        assert(forall|i: int|
            0 <= i < m1.tables[t].rows.len() ==> (#[trigger] m1.tables[t].rows[i]).len()
                == tab.cols.len());
    }
    assert forall|c: int| 0 <= c < m1.counts.len() implies {
        let cv = #[trigger] m1.counts[c];
        &&& 0 <= cv.source < m1.tables.len()
        &&& 0 <= cv.group_col < m1.tables[cv.source].cols.len()
        &&& distinct_keys(cv.entries)
        &&& counts_accurate(m1.tables[cv.source].rows, cv.group_col, cv.entries)
    } by {
        let cv0 = m.counts[c];
        if cv0.source == t {
            let k0 = row[cv0.group_col];
            lemma_bump(cv0.entries, k0, k0);
            assert forall|k: Val| #[trigger] count_of(bump(cv0.entries, k0), k) == count_matching(
                m1.tables[t].rows,
                cv0.group_col,
                k,
            ) by {
                lemma_bump(cv0.entries, k0, k);
                lemma_count_push(tab.rows, cv0.group_col, k, row);
                assert(count_of(cv0.entries, k) == count_matching(tab.rows, cv0.group_col, k));
            }
        } else {
            assert(m1.tables[cv0.source].rows == m.tables[cv0.source].rows);
            assert(counts_accurate(m1.tables[cv0.source].rows, cv0.group_col, cv0.entries));
        }
    }
    assert(forall|j: int| 0 <= j < m1.joins.len() ==> join_wf(m1, #[trigger] m1.joins[j]));
}

} // verus!
