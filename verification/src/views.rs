//! Materialized views.
//!
//! Two view shapes are supported, the minimal set the engine's query
//! language needs:
//!
//! * a grouped COUNT over one base table (`CountView`): an index from
//!   group-key value to the number of live source rows in that group,
//!   maintained by applying each change event to the affected entry;
//!   a key whose count has dropped back to zero keeps its entry, with
//!   count zero, per the floor-at-zero policy;
//! * a left join of a base table with a count view on a shared column
//!   (`JoinView`): one output row per live base row, extended by the
//!   count for its key, or by null where the count view has no entry
//!   for it yet.
//!
//! The materialized state is updated only by change propagation, never
//! recomputed, except for the initial fill when a view is created.

use vstd::prelude::*;

use crate::value::{val_eq, DataType, Val};

verus! {

/// One entry of a count view's index: a group key and the current
/// count of live source rows in its group.
pub struct CountEntry {
    pub key: DataType,
    pub count: usize,
}

/// Mathematical abstraction of a count entry.
#[verifier::ext_equal]
pub struct EntryModel {
    pub key: Val,
    pub count: int,
}

impl View for CountEntry {
    type V = EntryModel;

    open spec fn view(&self) -> EntryModel {
        EntryModel { key: self.key@, count: self.count as int }
    }
}

impl DeepView for CountEntry {
    type V = EntryModel;

    open spec fn deep_view(&self) -> EntryModel {
        self.view()
    }
}

/// A materialized grouped COUNT over one base table.
pub struct CountView {
    pub name: String,
    pub source: usize,
    pub group_col: usize,
    pub entries: Vec<CountEntry>,
}

/// Mathematical abstraction of a count view.
#[verifier::ext_equal]
pub struct CountModel {
    pub name: Seq<char>,
    pub source: int,
    pub group_col: int,
    pub entries: Seq<EntryModel>,
}

impl View for CountView {
    type V = CountModel;

    open spec fn view(&self) -> CountModel {
        CountModel {
            name: self.name@,
            source: self.source as int,
            group_col: self.group_col as int,
            entries: self.entries.deep_view(),
        }
    }
}

/// Whether the index has an entry for key `k`.
pub open spec fn has_key(es: Seq<EntryModel>, k: Val) -> bool {
    exists|i: int| 0 <= i < es.len() && es[i].key == k
}

/// The index of the entry for key `k` (meaningful only when `has_key`
/// holds and keys are distinct).
pub open spec fn key_at(es: Seq<EntryModel>, k: Val) -> int {
    choose|i: int| 0 <= i < es.len() && es[i].key == k
}

/// The recorded count for key `k`; zero when no entry exists.
pub open spec fn count_of(es: Seq<EntryModel>, k: Val) -> int {
    if has_key(es, k) {
        es[key_at(es, k)].count
    } else {
        0
    }
}

/// No two entries share a key.
pub open spec fn distinct_keys(es: Seq<EntryModel>) -> bool {
    forall|i: int, j: int| 0 <= i < j < es.len() ==> es[i].key != es[j].key
}

/// The index after a positive change event for key `k`: the entry's
/// count grows by one, or a fresh entry with count one appears.
pub open spec fn bump(es: Seq<EntryModel>, k: Val) -> Seq<EntryModel> {
    if has_key(es, k) {
        es.update(key_at(es, k), EntryModel { key: k, count: count_of(es, k) + 1 })
    } else {
        es.push(EntryModel { key: k, count: 1 })
    }
}

/// The index after a negative change event for key `k`: the entry's
/// count shrinks by one.  The entry remains even at count zero.
pub open spec fn debump(es: Seq<EntryModel>, k: Val) -> Seq<EntryModel> {
    if has_key(es, k) {
        es.update(key_at(es, k), EntryModel { key: k, count: count_of(es, k) - 1 })
    } else {
        es
    }
}

/// With distinct keys, the entry found by `key_at` is the one and only
/// entry for its key.
pub proof fn lemma_key_at(es: Seq<EntryModel>, k: Val)
    requires
        distinct_keys(es),
        has_key(es, k),
    ensures
        0 <= key_at(es, k) < es.len(),
        es[key_at(es, k)].key == k,
        forall|i: int| 0 <= i < es.len() && es[i].key == k ==> i == key_at(es, k),
{
}

/// A positive event raises the count of its own key by one and leaves
/// every other key untouched.
pub proof fn lemma_bump(es: Seq<EntryModel>, k: Val, k2: Val)
    requires
        distinct_keys(es),
    ensures
        distinct_keys(bump(es, k)),
        has_key(bump(es, k), k2) == (has_key(es, k2) || k2 == k),
        count_of(bump(es, k), k2) == count_of(es, k2) + if k2 == k {
            1int
        } else {
            0int
        },
{
    let es2 = bump(es, k);
    let j: int = if has_key(es, k) {
        key_at(es, k)
    } else {
        es.len() as int
    };
    if has_key(es, k) {
        lemma_key_at(es, k);
        assert(forall|i: int| 0 <= i < es.len() && i != j ==> es2[i] == es[i]);
    }
    assert(es2[j].key == k);
    assert(distinct_keys(es2));
    assert(has_key(es2, k));
    lemma_key_at(es2, k);
    assert(key_at(es2, k) == j);
    if k2 != k {
        if has_key(es, k2) {
            lemma_key_at(es, k2);
            let j2 = key_at(es, k2);
            assert(es2[j2].key == k2);
            assert(has_key(es2, k2));
            lemma_key_at(es2, k2);
            assert(key_at(es2, k2) == j2);
        }
        if has_key(es2, k2) {
            lemma_key_at(es2, k2);
            let q2 = key_at(es2, k2);
            assert(q2 != j);
            assert(es[q2].key == k2);
            assert(has_key(es, k2));
        }
    }
}

/// A negative event lowers the count of its own key by one, keeps its
/// entry, and leaves every other key untouched.
pub proof fn lemma_debump(es: Seq<EntryModel>, k: Val, k2: Val)
    requires
        distinct_keys(es),
        has_key(es, k),
    ensures
        distinct_keys(debump(es, k)),
        has_key(debump(es, k), k2) == has_key(es, k2),
        count_of(debump(es, k), k2) == count_of(es, k2) - if k2 == k {
            1int
        } else {
            0int
        },
{
    let es2 = debump(es, k);
    lemma_key_at(es, k);
    let j = key_at(es, k);
    assert(forall|i: int| 0 <= i < es.len() && i != j ==> es2[i] == es[i]);
    assert(es2[j].key == k);
    assert(distinct_keys(es2));
    assert(has_key(es2, k));
    lemma_key_at(es2, k);
    assert(key_at(es2, k) == j);
    if k2 != k {
        if has_key(es, k2) {
            lemma_key_at(es, k2);
            let j2 = key_at(es, k2);
            assert(es2[j2].key == k2);
            assert(has_key(es2, k2));
            lemma_key_at(es2, k2);
            assert(key_at(es2, k2) == j2);
        }
        if has_key(es2, k2) {
            lemma_key_at(es2, k2);
            let q2 = key_at(es2, k2);
            assert(q2 != j);
            assert(es[q2].key == k2);
            assert(has_key(es, k2));
        }
    }
}

/// Inserting and then deleting the same key restores the index
/// exactly, provided the key already had an entry before the insert.
pub proof fn lemma_debump_bump(es: Seq<EntryModel>, k: Val)
    requires
        distinct_keys(es),
        has_key(es, k),
    ensures
        debump(bump(es, k), k) == es,
{
    lemma_key_at(es, k);
    let j = key_at(es, k);
    let es2 = bump(es, k);
    lemma_bump(es, k, k);
    lemma_key_at(es2, k);
    assert(key_at(es2, k) == j);
    assert(debump(es2, k) =~= es);
}

impl CountView {
    /// The recorded count for `key`, if an entry exists.
    pub fn get(&self, key: &DataType) -> (r: Option<usize>)
        requires
            distinct_keys(self@.entries),
        ensures
            match r {
                Some(c) => has_key(self@.entries, key@) && c as int == count_of(
                    self@.entries,
                    key@,
                ),
                None => !has_key(self@.entries, key@),
            },
    {
        let ghost es = self@.entries;
        let mut i: usize = 0;
        while i < self.entries.len()
            invariant
                es == self@.entries,
                distinct_keys(es),
                i <= es.len(),
                forall|j: int| 0 <= j < i ==> (#[trigger] es[j]).key != key@,
            decreases es.len() - i,
        {
            proof {
                assert(es[i as int] == self.entries@[i as int]@);
            }
            if val_eq(&self.entries[i].key, key) {
                proof {
                    assert(has_key(es, key@));
                    lemma_key_at(es, key@);
                    assert(key_at(es, key@) == i);
                }
                return Some(self.entries[i].count);
            }
            i = i + 1;
        }
        None
    }

    /// Apply a positive change event for `key`.
    pub fn bump_entry(&mut self, key: &DataType)
        requires
            distinct_keys(old(self)@.entries),
            count_of(old(self)@.entries, key@) < usize::MAX as int,
        ensures
            final(self)@ == (CountModel {
                name: old(self)@.name,
                source: old(self)@.source,
                group_col: old(self)@.group_col,
                entries: bump(old(self)@.entries, key@),
            }),
    {
        let ghost es = self@.entries;
        let mut i: usize = 0;
        while i < self.entries.len()
            invariant
                self@ == old(self)@,
                es == old(self)@.entries,
                distinct_keys(es),
                count_of(es, key@) < usize::MAX as int,
                i <= es.len(),
                forall|j: int| 0 <= j < i ==> (#[trigger] es[j]).key != key@,
            decreases es.len() - i,
        {
            proof {
                assert(es[i as int] == self.entries@[i as int]@);
            }
            if val_eq(&self.entries[i].key, key) {
                proof {
                    assert(has_key(es, key@));
                    lemma_key_at(es, key@);
                    assert(key_at(es, key@) == i);
                }
                let c = self.entries[i].count;
                self.entries[i].count = c + 1;
                proof {
                    assert(self.entries.deep_view() =~= bump(es, key@));
                }
                return ;
            }
            i = i + 1;
        }
        proof {
            assert(!has_key(es, key@));
        }
        self.entries.push(CountEntry { key: key.duplicate(), count: 1 });
        proof {
            assert(self.entries.deep_view() =~= bump(es, key@));
        }
    }

    /// Apply a negative change event for `key`.  The caller guarantees
    /// (from the engine invariant) that an entry with a positive count
    /// exists.
    pub fn debump_entry(&mut self, key: &DataType)
        requires
            distinct_keys(old(self)@.entries),
            has_key(old(self)@.entries, key@),
            count_of(old(self)@.entries, key@) >= 1,
        ensures
            final(self)@ == (CountModel {
                name: old(self)@.name,
                source: old(self)@.source,
                group_col: old(self)@.group_col,
                entries: debump(old(self)@.entries, key@),
            }),
    {
        let ghost es = self@.entries;
        let mut i: usize = 0;
        while i < self.entries.len()
            invariant
                self@ == old(self)@,
                es == old(self)@.entries,
                distinct_keys(es),
                has_key(es, key@),
                count_of(es, key@) >= 1,
                i <= es.len(),
                forall|j: int| 0 <= j < i ==> (#[trigger] es[j]).key != key@,
            decreases es.len() - i,
        {
            proof {
                assert(es[i as int] == self.entries@[i as int]@);
            }
            if val_eq(&self.entries[i].key, key) {
                proof {
                    assert(has_key(es, key@));
                    lemma_key_at(es, key@);
                    assert(key_at(es, key@) == i);
                }
                let c = self.entries[i].count;
                self.entries[i].count = c - 1;
                proof {
                    assert(self.entries.deep_view() =~= debump(es, key@));
                }
                return ;
            }
            i = i + 1;
        }
        proof {
            lemma_key_at(es, key@);
            assert(false);
        }
    }
}

/// The join column's derived cell for key `k`: the recorded count as
/// an integer value, or null when the count view has no entry for `k`
/// (the left join preserves the base row).
pub open spec fn count_cell(es: Seq<EntryModel>, k: Val) -> Val {
    if has_key(es, k) {
        Val::VInt(count_of(es, k))
    } else {
        Val::VNull
    }
}

/// A base row extended by its derived count cell.
pub open spec fn joined_row(r: Seq<Val>, es: Seq<EntryModel>, col: int) -> Seq<Val> {
    r.push(count_cell(es, r[col]))
}

/// The full derived content of a join view: one output row per live
/// base row, in base-table order.
pub open spec fn join_rows(rows: Seq<Seq<Val>>, col: int, es: Seq<EntryModel>) -> Seq<Seq<Val>> {
    Seq::new(rows.len(), |i: int| joined_row(rows[i], es, col))
}

/// A materialized left join of a base table with a count view.
pub struct JoinView {
    pub name: String,
    pub base: usize,
    pub base_col: usize,
    pub count_view: usize,
    pub rows: Vec<Vec<DataType>>,
}

/// Mathematical abstraction of a join view's definition.  Its content
/// is derived: see `join_rows`.
#[verifier::ext_equal]
pub struct JoinModel {
    pub name: Seq<char>,
    pub base: int,
    pub base_col: int,
    pub count_view: int,
}

impl View for JoinView {
    type V = JoinModel;

    open spec fn view(&self) -> JoinModel {
        JoinModel {
            name: self.name@,
            base: self.base as int,
            base_col: self.base_col as int,
            count_view: self.count_view as int,
        }
    }
}

impl JoinView {
    /// Append the join output row for a newly inserted base row.
    pub fn append_joined(&mut self, row: Vec<DataType>, cell: DataType)
        ensures
            final(self)@ == old(self)@,
            final(self).rows.deep_view() == old(self).rows.deep_view().push(
                row.deep_view().push(cell@),
            ),
    {
        let mut out = row;
        out.push(cell);
        proof {
            assert(out.deep_view() =~= row.deep_view().push(cell@));
        }
        self.rows.push(out);
        proof {
            assert(self.rows.deep_view() =~= old(self).rows.deep_view().push(
                row.deep_view().push(cell@),
            ));
        }
    }

    /// Remove the join output row of a deleted base row (join output
    /// rows sit at the same index as their base rows).
    pub fn remove_joined(&mut self, i: usize)
        requires
            i < old(self).rows.deep_view().len(),
        ensures
            final(self)@ == old(self)@,
            final(self).rows.deep_view() == old(self).rows.deep_view().remove(i as int),
    {
        self.rows.remove(i);
        proof {
            assert(self.rows.deep_view() =~= old(self).rows.deep_view().remove(i as int));
        }
    }

    /// Rewrite the derived count cell of every output row whose join
    /// key equals `key` (the replace pattern a count change emits).
    pub fn set_count_cell(&mut self, key: &DataType, cell: &DataType)
        requires
            forall|i: int|
                0 <= i < old(self).rows.deep_view().len()
                    ==> (#[trigger] old(self).rows.deep_view()[i]).len() > old(self)@.base_col + 1,
        ensures
            final(self)@ == old(self)@,
            final(self).rows.deep_view() == Seq::new(
                old(self).rows.deep_view().len(),
                |i: int|
                    {
                        let r = old(self).rows.deep_view()[i];
                        if r[old(self)@.base_col] == key@ {
                            r.update(r.len() - 1, cell@)
                        } else {
                            r
                        }
                    },
            ),
    {
        let ghost rs = self.rows.deep_view();
        let ghost col = self@.base_col;
        let ghost target = Seq::new(
            rs.len(),
            |i: int|
                {
                    let r = rs[i];
                    if r[col] == key@ {
                        r.update(r.len() - 1, cell@)
                    } else {
                        r
                    }
                },
        );
        let mut i: usize = 0;
        while i < self.rows.len()
            invariant
                self@ == old(self)@,
                rs == old(self).rows.deep_view(),
                col == self@.base_col,
                target == Seq::new(
                    rs.len(),
                    |q: int|
                        {
                            let r = rs[q];
                            if r[col] == key@ {
                                r.update(r.len() - 1, cell@)
                            } else {
                                r
                            }
                        },
                ),
                forall|q: int| 0 <= q < rs.len() ==> (#[trigger] rs[q]).len() > col + 1,
                i <= rs.len(),
                self.rows.deep_view().len() == rs.len(),
                forall|q: int| 0 <= q < i ==> self.rows.deep_view()[q] == target[q],
                forall|q: int| i <= q < rs.len() ==> self.rows.deep_view()[q] == rs[q],
            decreases rs.len() - i,
        {
            proof {
                assert(self.rows.deep_view()[i as int] == rs[i as int]);
            }
            let r = &mut self.rows[i];
            let n = r.len();
            if val_eq(&r[self.base_col], key) {
                r[n - 1] = cell.duplicate();
            }
            proof {
                assert(self.rows.deep_view()[i as int] =~= target[i as int]);
            }
            i = i + 1;
        }
        proof {
            assert(self.rows.deep_view() =~= target);
        }
    }
}

} // verus!
