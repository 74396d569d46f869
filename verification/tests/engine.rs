use sanepp_rusty_db::controller::Controller;
use sanepp_rusty_db::error::Error;
use sanepp_rusty_db::plan::{Recipe, TableDef, ViewDef};
use sanepp_rusty_db::table::ColumnDef;
use sanepp_rusty_db::value::{DataType, Kind};

fn col(name: &str, kind: Kind) -> ColumnDef {
    ColumnDef { name: name.to_owned(), kind }
}

/// `Article(aid, title, url)` with primary key `aid`, and
/// `Vote(id, aid, uid)` with primary key `id`, so that single votes
/// can be deleted by their own key.
fn voting_schema() -> Recipe {
    Recipe {
        tables: vec![
            TableDef {
                name: "Article".to_owned(),
                columns: vec![col("aid", Kind::Int), col("title", Kind::Text), col("url", Kind::Text)],
                primary_key: 0,
            },
            TableDef {
                name: "Vote".to_owned(),
                columns: vec![col("id", Kind::Int), col("aid", Kind::Int), col("uid", Kind::Int)],
                primary_key: 0,
            },
        ],
        views: Vec::new(),
    }
}

fn vote_views() -> Recipe {
    Recipe {
        tables: Vec::new(),
        views: vec![
            ViewDef::Count {
                name: "VoteCount".to_owned(),
                source: "Vote".to_owned(),
                group_col: 1,
            },
            ViewDef::Join {
                name: "ArticleWithVoteCount".to_owned(),
                base: "Article".to_owned(),
                base_col: 0,
                count_view: "VoteCount".to_owned(),
            },
        ],
    }
}

fn num(v: i128) -> DataType {
    DataType::Int(v)
}

fn text(v: &str) -> DataType {
    DataType::Text(v.to_owned())
}

fn insert_vote(db: &mut Controller, id: i128, aid: i128, uid: i128) {
    let vote = db.table("Vote").unwrap();
    db.insert(&vote, vec![num(id), num(aid), num(uid)]).unwrap();
}

#[test]
fn example_scenario() {
    let rows = sanepp_rusty_db::demo::example().unwrap();
    assert_eq!(
        rows,
        vec![vec![
            num(42),
            text("I love Soup"),
            text("https://pdos.csail.mit.edu"),
            num(1)
        ]]
    );
}

#[test]
fn count_matches_recomputation() {
    let mut db = Controller::new();
    db.install_recipe(&voting_schema()).unwrap();
    db.extend_recipe(&vote_views()).unwrap();
    let mut expected_for_7: i128 = 0;
    for i in 0..20i128 {
        let aid = i % 3 + 6; // aids 6, 7, 8
        insert_vote(&mut db, i, aid, 100 + i);
        if aid == 7 {
            expected_for_7 += 1;
        }
    }
    // delete a few votes for aid 7 (ids 1, 4 have aid 7)
    let vote = db.table("Vote").unwrap();
    db.delete(&vote, &num(1)).unwrap();
    db.delete(&vote, &num(4)).unwrap();
    expected_for_7 -= 2;
    let vc = db.view_handle("VoteCount").unwrap();
    let rows = db.lookup(&vc, &num(7), true).unwrap();
    assert_eq!(rows, vec![vec![num(7), num(expected_for_7)]]);
}

#[test]
fn duplicate_key_rejected_and_state_unchanged() {
    let mut db = Controller::new();
    db.install_recipe(&voting_schema()).unwrap();
    db.extend_recipe(&vote_views()).unwrap();
    insert_vote(&mut db, 1, 7, 100);
    let vc = db.view_handle("VoteCount").unwrap();
    let before = db.lookup(&vc, &num(7), true).unwrap();
    let vote = db.table("Vote").unwrap();
    let r = db.insert(&vote, vec![num(1), num(7), num(999)]);
    assert_eq!(r, Err(Error::DuplicateKey));
    let after = db.lookup(&vc, &num(7), true).unwrap();
    assert_eq!(before, after);
    assert_eq!(after, vec![vec![num(7), num(1)]]);
}

#[test]
fn arity_and_kind_validation() {
    let mut db = Controller::new();
    db.install_recipe(&voting_schema()).unwrap();
    let vote = db.table("Vote").unwrap();
    assert_eq!(db.insert(&vote, vec![num(1), num(7)]), Err(Error::ArityError));
    assert_eq!(
        db.insert(&vote, vec![num(1), text("seven"), num(100)]),
        Err(Error::TypeMismatch)
    );
    // null is allowed in any column
    db.insert(&vote, vec![num(1), DataType::Null, num(100)]).unwrap();
}

#[test]
fn unknown_names_are_not_found() {
    let mut db = Controller::new();
    db.install_recipe(&voting_schema()).unwrap();
    assert!(matches!(db.table("Articles"), Err(Error::NotFound)));
    assert!(matches!(db.view_handle("VoteCount"), Err(Error::NotFound)));
    let vote = db.table("Vote").unwrap();
    assert_eq!(db.delete(&vote, &num(17)), Err(Error::NotFound));
}

#[test]
fn extend_does_not_disturb_existing_views() {
    let mut db = Controller::new();
    db.install_recipe(&voting_schema()).unwrap();
    db.extend_recipe(&vote_views()).unwrap();
    insert_vote(&mut db, 1, 7, 100);
    insert_vote(&mut db, 2, 7, 101);
    let vc = db.view_handle("VoteCount").unwrap();
    let before = db.lookup(&vc, &num(7), true).unwrap();
    let more = Recipe {
        tables: Vec::new(),
        views: vec![ViewDef::Count {
            name: "VotesPerUser".to_owned(),
            source: "Vote".to_owned(),
            group_col: 2,
        }],
    };
    db.extend_recipe(&more).unwrap();
    let after = db.lookup(&vc, &num(7), true).unwrap();
    assert_eq!(before, after);
}

#[test]
fn initial_fill_reflects_existing_rows() {
    let mut db = Controller::new();
    db.install_recipe(&voting_schema()).unwrap();
    insert_vote(&mut db, 1, 7, 100);
    insert_vote(&mut db, 2, 7, 101);
    insert_vote(&mut db, 3, 8, 102);
    db.extend_recipe(&vote_views()).unwrap();
    let vc = db.view_handle("VoteCount").unwrap();
    assert_eq!(db.lookup(&vc, &num(7), true).unwrap(), vec![vec![num(7), num(2)]]);
    assert_eq!(db.lookup(&vc, &num(8), true).unwrap(), vec![vec![num(8), num(1)]]);
}

#[test]
fn insert_then_delete_restores_counts_and_join() {
    let mut db = Controller::new();
    db.install_recipe(&voting_schema()).unwrap();
    db.extend_recipe(&vote_views()).unwrap();
    let article = db.table("Article").unwrap();
    db.insert(&article, vec![num(7), text("a"), text("u")]).unwrap();
    insert_vote(&mut db, 1, 7, 100); // group key 7 now exists
    let vc = db.view_handle("VoteCount").unwrap();
    let awvc = db.view_handle("ArticleWithVoteCount").unwrap();
    let counts_before = db.lookup(&vc, &num(7), true).unwrap();
    let join_before = db.lookup(&awvc, &num(7), true).unwrap();
    insert_vote(&mut db, 2, 7, 101);
    let vote = db.table("Vote").unwrap();
    db.delete(&vote, &num(2)).unwrap();
    assert_eq!(db.lookup(&vc, &num(7), true).unwrap(), counts_before);
    assert_eq!(db.lookup(&awvc, &num(7), true).unwrap(), join_before);
}

#[test]
fn lookup_of_absent_key_is_empty_not_error() {
    let mut db = Controller::new();
    db.install_recipe(&voting_schema()).unwrap();
    db.extend_recipe(&vote_views()).unwrap();
    let vc = db.view_handle("VoteCount").unwrap();
    let awvc = db.view_handle("ArticleWithVoteCount").unwrap();
    assert_eq!(db.lookup(&vc, &num(12345), true).unwrap(), Vec::<Vec<DataType>>::new());
    assert_eq!(db.lookup(&awvc, &num(12345), false).unwrap(), Vec::<Vec<DataType>>::new());
}

#[test]
fn deleting_only_vote_leaves_count_zero() {
    let mut db = Controller::new();
    db.install_recipe(&voting_schema()).unwrap();
    db.extend_recipe(&vote_views()).unwrap();
    insert_vote(&mut db, 1, 7, 100);
    let vote = db.table("Vote").unwrap();
    db.delete(&vote, &num(1)).unwrap();
    let vc = db.view_handle("VoteCount").unwrap();
    assert_eq!(db.lookup(&vc, &num(7), true).unwrap(), vec![vec![num(7), num(0)]]);
}

#[test]
fn left_join_uses_null_for_missing_count() {
    let mut db = Controller::new();
    db.install_recipe(&voting_schema()).unwrap();
    db.extend_recipe(&vote_views()).unwrap();
    let article = db.table("Article").unwrap();
    db.insert(&article, vec![num(9), text("quiet"), text("u")]).unwrap();
    let awvc = db.view_handle("ArticleWithVoteCount").unwrap();
    assert_eq!(
        db.lookup(&awvc, &num(9), true).unwrap(),
        vec![vec![num(9), text("quiet"), text("u"), DataType::Null]]
    );
}

#[test]
fn schema_errors_leave_recipe_untouched() {
    let mut db = Controller::new();
    db.install_recipe(&voting_schema()).unwrap();
    // duplicate table name
    let dup = Recipe {
        tables: vec![TableDef {
            name: "Vote".to_owned(),
            columns: vec![col("x", Kind::Int)],
            primary_key: 0,
        }],
        views: Vec::new(),
    };
    assert_eq!(db.extend_recipe(&dup), Err(Error::SchemaError));
    // primary key out of range
    let bad_pk = Recipe {
        tables: vec![TableDef {
            name: "T".to_owned(),
            columns: vec![col("x", Kind::Int)],
            primary_key: 3,
        }],
        views: Vec::new(),
    };
    assert_eq!(db.extend_recipe(&bad_pk), Err(Error::SchemaError));
    // unknown source table
    let bad_view = Recipe {
        tables: Vec::new(),
        views: vec![ViewDef::Count {
            name: "C".to_owned(),
            source: "NoSuchTable".to_owned(),
            group_col: 0,
        }],
    };
    assert_eq!(db.extend_recipe(&bad_view), Err(Error::SchemaError));
    // group column out of range
    let bad_col = Recipe {
        tables: Vec::new(),
        views: vec![ViewDef::Count {
            name: "C".to_owned(),
            source: "Vote".to_owned(),
            group_col: 9,
        }],
    };
    assert_eq!(db.extend_recipe(&bad_col), Err(Error::SchemaError));
    // a second install is refused; the tables still work
    assert_eq!(db.install_recipe(&voting_schema()), Err(Error::SchemaError));
    assert!(db.table("Vote").is_ok());
}

#[test]
fn values_compare_by_kind_and_payload() {
    assert_eq!(num(1), num(1));
    assert_ne!(num(1), num(2));
    assert_ne!(num(1), text("1"));
    assert_ne!(num(0), DataType::Null);
    assert_eq!(DataType::Null, DataType::Null);
    assert_eq!(text("a"), text("a"));
    assert_ne!(text("a"), text("b"));
    assert_eq!(DataType::Timestamp(5), DataType::Timestamp(5));
    assert_ne!(DataType::Timestamp(5), num(5));
}
