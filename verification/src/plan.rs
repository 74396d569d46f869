//! Structured recipe plans.
//!
//! A recipe arrives already parsed and validated in form: a set of
//! table definitions and a set of view definitions.  The engine
//! validates the semantics (duplicate names, unknown references,
//! column indices out of range) and rejects a bad plan with
//! `SchemaError` before touching any state.

use vstd::prelude::*;

use crate::table::{ColModel, ColumnDef};

verus! {

/// A CREATE TABLE statement: name, columns, and the index of the
/// primary-key column.
pub struct TableDef {
    pub name: String,
    pub columns: Vec<ColumnDef>,
    pub primary_key: usize,
}

/// Mathematical abstraction of a table definition.
#[verifier::ext_equal]
pub struct TableDefModel {
    pub name: Seq<char>,
    pub cols: Seq<ColModel>,
    pub pk: int,
}

impl View for TableDef {
    type V = TableDefModel;

    open spec fn view(&self) -> TableDefModel {
        TableDefModel {
            name: self.name@,
            cols: self.columns.deep_view(),
            pk: self.primary_key as int,
        }
    }
}

impl DeepView for TableDef {
    type V = TableDefModel;

    open spec fn deep_view(&self) -> TableDefModel {
        self.view()
    }
}

/// A view definition: either a grouped COUNT over one source table, or
/// a left join of a base table with a previously defined count view on
/// a base column (which is also the view's lookup-key column).
pub enum ViewDef {
    Count { name: String, source: String, group_col: usize },
    Join { name: String, base: String, base_col: usize, count_view: String },
}

/// Mathematical abstraction of a view definition.
#[verifier::ext_equal]
pub enum ViewDefModel {
    Count { name: Seq<char>, source: Seq<char>, group_col: int },
    Join { name: Seq<char>, base: Seq<char>, base_col: int, count_view: Seq<char> },
}

impl View for ViewDef {
    type V = ViewDefModel;

    open spec fn view(&self) -> ViewDefModel {
        match self {
            ViewDef::Count { name, source, group_col } => ViewDefModel::Count {
                name: name@,
                source: source@,
                group_col: *group_col as int,
            },
            ViewDef::Join { name, base, base_col, count_view } => ViewDefModel::Join {
                name: name@,
                base: base@,
                base_col: *base_col as int,
                count_view: count_view@,
            },
        }
    }
}

impl DeepView for ViewDef {
    type V = ViewDefModel;

    open spec fn deep_view(&self) -> ViewDefModel {
        self.view()
    }
}

/// A full plan: the tables and views to add.
pub struct Recipe {
    pub tables: Vec<TableDef>,
    pub views: Vec<ViewDef>,
}

/// Mathematical abstraction of a recipe.
#[verifier::ext_equal]
pub struct RecipeModel {
    pub tables: Seq<TableDefModel>,
    pub views: Seq<ViewDefModel>,
}

impl View for Recipe {
    type V = RecipeModel;

    open spec fn view(&self) -> RecipeModel {
        RecipeModel { tables: self.tables.deep_view(), views: self.views.deep_view() }
    }
}

/// The name a view definition declares.
pub open spec fn view_def_name(v: ViewDefModel) -> Seq<char> {
    match v {
        ViewDefModel::Count { name, .. } => name,
        ViewDefModel::Join { name, .. } => name,
    }
}

impl ViewDef {
    /// The name a view definition declares.
    pub fn name(&self) -> (r: &String)
        ensures
            r@ == view_def_name(self@),
    {
        match self {
            ViewDef::Count { name, .. } => name,
            ViewDef::Join { name, .. } => name,
        }
    }
}

} // verus!
