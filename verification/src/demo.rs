//! A worked example of the engine's API, end to end.
//!
//! It mirrors a small voting site: articles, votes, a per-article vote
//! count, and a join of articles with their vote counts, looked up by
//! article id.

use vstd::prelude::*;

use crate::controller::{count_index_named, count_matches_def, count_named, counts_accurate,
    def_count_named, extend_ok, join_matches_def, lemma_table_index_named, new_table,
    table_def_ok, table_index_named, table_named, tables_after, tr_insert, view_def_ok,
    Controller, ViewRef};
use crate::error::Error;
use crate::plan::{view_def_name, Recipe, TableDef, ViewDef};
use crate::table::{count_matching, lemma_count_push, lemma_count_zero, lemma_matching_push,
    matching_rows, row_matches, ColumnDef};
use crate::value::{DataType, Kind, Val};
use crate::views::{count_cell, count_of, has_key, join_rows, joined_row};

verus! {

/// What the example's blocking lookup returns: exactly one row,
/// `(42, "I love Soup", "https://pdos.csail.mit.edu", 1)` — the
/// article's columns extended by its vote count.
pub open spec fn example_rows() -> Seq<Seq<Val>> {
    seq![
        seq![
            Val::VInt(42),
            Val::VText("I love Soup"@),
            Val::VText("https://pdos.csail.mit.edu"@),
            Val::VInt(1),
        ],
    ]
}

/// Create tables `Article(aid, title, url)` (primary key `aid`) and
/// `Vote(aid, uid)`; insert one article and one vote for it; then
/// declare a `VoteCount` view (votes per article) and an
/// `ArticleWithVoteCount` view (articles joined with their vote
/// counts, looked up by `aid`), and look up article 42.
///
/// The contract pins the scenario's outcome: the call succeeds and the
/// blocking lookup returns exactly `example_rows()`.
pub fn example() -> (r: Result<Vec<Vec<DataType>>, Error>)
    ensures
        r is Ok,
        r matches Ok(rows) && rows.deep_view() == example_rows(),
{
    let mut db = Controller::new();

    let schema = Recipe {
        tables: vec![
            TableDef {
                name: "Article".to_owned(),
                columns: vec![
                    ColumnDef { name: "aid".to_owned(), kind: Kind::Int },
                    ColumnDef { name: "title".to_owned(), kind: Kind::Text },
                    ColumnDef { name: "url".to_owned(), kind: Kind::Text },
                ],
                primary_key: 0,
            },
            TableDef {
                name: "Vote".to_owned(),
                columns: vec![
                    ColumnDef { name: "aid".to_owned(), kind: Kind::Int },
                    ColumnDef { name: "uid".to_owned(), kind: Kind::Int },
                ],
                primary_key: 0,
            },
        ],
        views: Vec::new(),
    };
    proof {
        reveal_strlit("Article");
        reveal_strlit("Vote");
        assert(schema@.views.len() == 0);
        assert(schema@.tables.len() == 2);
        assert(schema@.tables[0] == schema.tables@[0]@);
        assert(schema@.tables[1] == schema.tables@[1]@);
        assert(schema@.tables[0].cols.len() == 3);
        assert(schema@.tables[1].cols.len() == 2);
        assert("Article"@.len() == 7);
        assert("Vote"@.len() == 4);
        assert("Article"@ != "Vote"@);
        assert(extend_ok(db@, schema@)) by {
            assert forall|i: int| 0 <= i < schema@.tables.len() implies table_def_ok(
                db@,
                schema@,
                i,
            ) by {
                assert(db@.tables.len() == 0);
                if i == 1 {
                    assert(schema@.tables[0].name != schema@.tables[1].name);
                }
            }
        }
    }
    let installed = db.install_recipe(&schema);
    if installed.is_err() {
        proof {
            assert(false);
        }
        return Err(Error::SchemaError);
    }
    let ghost m1 = db@;
    proof {
        reveal_strlit("Article");
        reveal_strlit("Vote");
        assert(m1.tables.len() == 2);
        assert(m1.tables[0] == new_table(schema@.tables[0]));
        assert(m1.tables[1] == new_table(schema@.tables[1]));
        // the plan declares no views, so none can have been created
        if m1.counts.len() > 0 {
            assert(count_matches_def(schema@, m1.tables, m1.counts[0]));
            assert(false);
        }
        if m1.joins.len() > 0 {
            assert(join_matches_def(schema@, m1.tables, m1.counts, m1.joins[0]));
            assert(false);
        }
    }

    let article = match db.table("Article") {
        Ok(h) => h,
        Err(e) => {
            return Err(e);
        },
    };
    let vote = match db.table("Vote") {
        Ok(h) => h,
        Err(e) => {
            return Err(e);
        },
    };
    proof {
        reveal_strlit("Article");
        reveal_strlit("Vote");
        // the handles point at the two tables just created
        assert(article@ == 0) by {
            if article@ == 1 {
                assert(m1.tables[1].name == "Vote"@);
                assert(false);
            }
        }
        assert(vote@ == 1) by {
            if vote@ == 0 {
                assert(m1.tables[0].name == "Article"@);
                assert(false);
            }
        }
    }

    let aid: i128 = 42;
    let row = vec![
        DataType::Int(aid),
        DataType::Text("I love Soup".to_owned()),
        DataType::Text("https://pdos.csail.mit.edu".to_owned()),
    ];
    let ghost row_v = row.deep_view();
    proof {
        assert(row_v =~= seq![
            Val::VInt(42),
            Val::VText("I love Soup"@),
            Val::VText("https://pdos.csail.mit.edu"@),
        ]);
    }
    match db.insert(&article, row) {
        Ok(()) => {},
        Err(e) => {
            return Err(e);
        },
    }
    let ghost m2 = db@;
    let vrow = vec![DataType::Int(aid), DataType::Int(1)];
    let ghost vrow_v = vrow.deep_view();
    proof {
        assert(m2 == tr_insert(m1, 0, row_v));
        assert(m2.tables[0].rows =~= seq![row_v]);
        assert(m2.tables[1] == m1.tables[1]);
        assert(vrow_v =~= seq![Val::VInt(42), Val::VInt(1)]);
    }
    match db.insert(&vote, vrow) {
        Ok(()) => {},
        Err(e) => {
            return Err(e);
        },
    }
    let ghost m3 = db@;
    proof {
        assert(m3 == tr_insert(m2, 1, vrow_v));
        assert(m3.tables[0] == m2.tables[0]);
        assert(m3.tables[1].rows =~= seq![vrow_v]);
        assert(m3.counts =~= Seq::<crate::views::CountModel>::empty());
        assert(m3.joins =~= Seq::<crate::views::JoinModel>::empty());
    }

    let views = Recipe {
        tables: Vec::new(),
        views: vec![
            ViewDef::Count {
                name: "VoteCount".to_owned(),
                source: "Vote".to_owned(),
                group_col: 0,
            },
            ViewDef::Join {
                name: "ArticleWithVoteCount".to_owned(),
                base: "Article".to_owned(),
                base_col: 0,
                count_view: "VoteCount".to_owned(),
            },
        ],
    };
    proof {
        reveal_strlit("Article");
        reveal_strlit("Vote");
        reveal_strlit("VoteCount");
        reveal_strlit("ArticleWithVoteCount");
        assert(views@.tables.len() == 0);
        assert(views@.views.len() == 2);
        assert(views@.views[0] == views.views@[0]@);
        assert(views@.views[1] == views.views@[1]@);
        assert("VoteCount"@.len() == 9);
        assert("ArticleWithVoteCount"@.len() == 20);
        assert("VoteCount"@ != "ArticleWithVoteCount"@);
        // the two inserts changed only rows: names, columns, and the
        // (empty) view lists are those of the installed schema
        assert(m3.tables.len() == 2);
        assert(m3.tables[0].name == "Article"@ && m3.tables[0].cols.len() == 3);
        assert(m3.tables[1].name == "Vote"@ && m3.tables[1].cols.len() == 2);
        assert(m3.counts.len() == 0 && m3.joins.len() == 0);
        let ta = tables_after(m3, views@);
        assert(ta =~= m3.tables);
        assert(extend_ok(m3, views@)) by {
            assert(table_named(ta, "Vote"@));
            lemma_table_index_named(ta, "Vote"@, 1);
            assert(table_named(ta, "Article"@));
            lemma_table_index_named(ta, "Article"@, 0);
            assert(def_count_named(views@.views, "VoteCount"@));
            assert forall|v: int| 0 <= v < views@.views.len() implies view_def_ok(
                m3,
                views@,
                v,
            ) by {
                if v == 1 {
                    assert(view_def_name(views@.views[0]) != view_def_name(views@.views[1]));
                }
            }
        }
    }
    let extended = db.extend_recipe(&views);
    if extended.is_err() {
        proof {
            assert(false);
        }
        return Err(Error::SchemaError);
    }
    let ghost m4 = db@;

    let awvc = match db.view_handle("ArticleWithVoteCount") {
        Ok(h) => h,
        Err(e) => {
            return Err(e);
        },
    };
    let key = DataType::Int(aid);
    let result = db.lookup(&awvc, &key, true);
    proof {
        reveal_strlit("Article");
        reveal_strlit("Vote");
        reveal_strlit("VoteCount");
        reveal_strlit("ArticleWithVoteCount");
        let k42 = Val::VInt(42);
        assert(key@ == k42);
        assert(m4.tables == tables_after(m3, views@));
        assert(m4.tables.len() == 2);
        assert(m4.tables[0] == m3.tables[0]);
        assert(m4.tables[1] == m3.tables[1]);
        lemma_table_index_named(m4.tables, "Vote"@, 1);
        lemma_table_index_named(m4.tables, "Article"@, 0);
        // the handle names a join view, never a count view: every count
        // view comes from the plan's single count definition and is
        // called VoteCount
        let ji: int = match awvc@ {
            ViewRef::Count(c) => {
                assert(count_matches_def(views@, m4.tables, m4.counts[c]));
                let w = choose|w: int|
                    {
                        &&& 0 <= w < views@.views.len()
                        &&& (#[trigger] views@.views[w]) is Count
                        &&& m4.counts[c].name == view_def_name(views@.views[w])
                        &&& m4.counts[c].source == table_index_named(
                            m4.tables,
                            views@.views[w]->Count_source,
                        )
                        &&& m4.counts[c].group_col == views@.views[w]->Count_group_col
                    };
                assert(w == 0);
                assert(m4.counts[c].name == "VoteCount"@);
                assert(false);
                0
            },
            ViewRef::Join(j) => j,
        };
        let jm = m4.joins[ji];
        // the join comes from the plan's single join definition
        assert(join_matches_def(views@, m4.tables, m4.counts, jm));
        let wj = choose|w: int|
            {
                &&& 0 <= w < views@.views.len()
                &&& (#[trigger] views@.views[w]) is Join
                &&& jm.name == view_def_name(views@.views[w])
                &&& jm.base == table_index_named(m4.tables, views@.views[w]->Join_base)
                &&& jm.base_col == views@.views[w]->Join_base_col
                &&& jm.count_view == count_index_named(m4.counts, views@.views[w]->Join_count_view)
            };
        assert(wj == 1);
        assert(jm.base == 0);
        assert(jm.base_col == 0);
        // its count view is the one from the count definition
        assert(count_named(m4.counts, "VoteCount"@));
        let ci = jm.count_view;
        assert(ci == count_index_named(m4.counts, "VoteCount"@));
        assert(0 <= ci < m4.counts.len() && m4.counts[ci].name == "VoteCount"@);
        assert(count_matches_def(views@, m4.tables, m4.counts[ci]));
        let wc = choose|w: int|
            {
                &&& 0 <= w < views@.views.len()
                &&& (#[trigger] views@.views[w]) is Count
                &&& m4.counts[ci].name == view_def_name(views@.views[w])
                &&& m4.counts[ci].source == table_index_named(
                    m4.tables,
                    views@.views[w]->Count_source,
                )
                &&& m4.counts[ci].group_col == views@.views[w]->Count_group_col
            };
        assert(wc == 0);
        assert(m4.counts[ci].source == 1);
        assert(m4.counts[ci].group_col == 0);
        let es = m4.counts[ci].entries;
        // the one vote gives the key 42 a live count of one
        assert(m4.tables[1].rows =~= Seq::<Seq<Val>>::empty().push(vrow_v));
        lemma_count_zero(Seq::<Seq<Val>>::empty(), 0, k42);
        lemma_count_push(Seq::<Seq<Val>>::empty(), 0, k42, vrow_v);
        assert(row_matches(vrow_v, 0, k42));
        assert(count_matching(m4.tables[1].rows, 0, k42) == 1);
        assert(has_key(es, k42));
        assert(counts_accurate(m4.tables[1].rows, 0, es));
        assert(count_of(es, k42) == 1);
        assert(count_cell(es, k42) == Val::VInt(1));
        // the one article joins with that count
        let base_rows = m4.tables[0].rows;
        assert(base_rows =~= seq![row_v]);
        let content = join_rows(base_rows, 0, es);
        assert(content[0] == joined_row(row_v, es, 0));
        assert(row_v[0] == k42);
        assert(content[0] =~= row_v.push(Val::VInt(1)));
        assert(content =~= Seq::<Seq<Val>>::empty().push(content[0]));
        lemma_count_zero(Seq::<Seq<Val>>::empty(), 0, k42);
        assert(matching_rows(Seq::<Seq<Val>>::empty(), 0, k42).len() == 0);
        assert(matching_rows(Seq::<Seq<Val>>::empty(), 0, k42) =~= Seq::<Seq<Val>>::empty());
        lemma_matching_push(Seq::<Seq<Val>>::empty(), 0, k42, content[0]);
        assert(row_matches(content[0], 0, k42));
        assert(matching_rows(content, 0, k42) =~= seq![content[0]]);
        assert(content[0] =~= example_rows()[0]);
        assert(matching_rows(content, 0, k42) =~= example_rows());
        assert(result matches Ok(rows) && rows.deep_view() == example_rows());
    }
    result
}

} // verus!
