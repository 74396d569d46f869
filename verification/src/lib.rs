//! An incrementally maintained materialized-view engine.
//!
//! Base tables accept row inserts and deletes; derived views (grouped
//! counts and a left join of a table with such a count view) are kept
//! continuously consistent with the tables by propagating each change
//! into the materialized view state, never by recomputation from
//! scratch.  Point lookups read the materialized state.
//!
//! The central invariant, carried by every public operation, is that
//! the content of each materialized view equals the result of
//! evaluating the view's defining query over the current content of
//! the base tables.

pub mod controller;
pub mod demo;
pub mod error;
pub mod plan;
pub mod table;
pub mod value;
pub mod views;
