//! The engine's error taxonomy.

use vstd::prelude::*;

verus! {

/// Everything a table, view, or recipe operation can reject.
///
/// * `SchemaError`: a bad or duplicate definition at recipe
///   install/extend time; the existing recipe is left untouched.
/// * `ArityError`: a row whose length differs from the table schema.
/// * `TypeMismatch`: a row value whose kind differs from its column's
///   declared kind.
/// * `DuplicateKey`: an insert whose primary-key value is already live.
/// * `NotFound`: a delete of an absent key, or a handle request for an
///   unknown table or view name.
/// * `InternalInvariant`: propagation arithmetic went inconsistent (a
///   group count asked to drop below zero).  The engine's invariants
///   prove this cannot happen through the public interface; the check
///   remains as the operator's floor-at-zero guard.
#[derive(Clone, Copy, PartialEq, Eq, Structural, Debug)]
pub enum Error {
    SchemaError,
    ArityError,
    TypeMismatch,
    DuplicateKey,
    NotFound,
    InternalInvariant,
}

} // verus!
