//! The value type stored in tables and views.
//!
//! Every cell of every row is a `DataType`: a closed tagged variant
//! over a null marker, a signed integer, UTF-8 text, and a timestamp.
//! Values are immutable and compared by value; there is no implicit
//! coercion between kinds (an integer never equals a text, and a row
//! whose cell kind differs from the column's declared kind is rejected
//! by the table with a type-mismatch error rather than coerced).

use vstd::prelude::*;

verus! {

/// The declared kind of a column.
#[derive(Clone, Copy, PartialEq, Eq, Structural, Debug)]
pub enum Kind {
    Int,
    Text,
    Timestamp,
}

/// A stored value: null, a signed integer, UTF-8 text, or a timestamp
/// (seconds relative to an arbitrary epoch).
#[derive(Debug)]
pub enum DataType {
    Null,
    Int(i128),
    Text(String),
    Timestamp(i128),
}

/// The mathematical abstraction of a `DataType`: text becomes its
/// character sequence, the numeric variants become unbounded integers.
pub enum Val {
    VNull,
    VInt(int),
    VText(Seq<char>),
    VTimestamp(int),
}

impl View for DataType {
    type V = Val;

    open spec fn view(&self) -> Val {
        match self {
            DataType::Null => Val::VNull,
            DataType::Int(i) => Val::VInt(*i as int),
            DataType::Text(s) => Val::VText(s@),
            DataType::Timestamp(t) => Val::VTimestamp(*t as int),
        }
    }
}

impl DeepView for DataType {
    type V = Val;

    open spec fn deep_view(&self) -> Val {
        self.view()
    }
}

/// Whether a value may be stored in a column of kind `k`.  Null is
/// accepted by every column; any other value must match the column's
/// declared kind exactly.
pub open spec fn kind_ok(v: Val, k: Kind) -> bool {
    match v {
        Val::VNull => true,
        Val::VInt(_) => k == Kind::Int,
        Val::VText(_) => k == Kind::Text,
        Val::VTimestamp(_) => k == Kind::Timestamp,
    }
}

impl DataType {
    /// Runtime check of `kind_ok`.
    pub fn fits_kind(&self, k: Kind) -> (r: bool)
        ensures
            r == kind_ok(self@, k),
    {
        match self {
            DataType::Null => true,
            DataType::Int(_) => k == Kind::Int,
            DataType::Text(_) => k == Kind::Text,
            DataType::Timestamp(_) => k == Kind::Timestamp,
        }
    }

    /// An exact copy of the value.
    pub fn duplicate(&self) -> (r: DataType)
        ensures
            r@ == self@,
    {
        match self {
            DataType::Null => DataType::Null,
            DataType::Int(i) => DataType::Int(*i),
            DataType::Text(s) => DataType::Text(s.clone()),
            DataType::Timestamp(t) => DataType::Timestamp(*t),
        }
    }
}

impl PartialEq for DataType {
    /// Equality by value: two values are equal when they are the same
    /// variant with the same payload; values of different kinds are
    /// never equal.
    fn eq(&self, other: &Self) -> (r: bool) {
        match (self, other) {
            (DataType::Null, DataType::Null) => true,
            (DataType::Int(a), DataType::Int(b)) => *a == *b,
            (DataType::Text(a), DataType::Text(b)) => *a == *b,
            (DataType::Timestamp(a), DataType::Timestamp(b)) => *a == *b,
            _ => false,
        }
    }
}

impl vstd::std_specs::cmp::PartialEqSpecImpl for DataType {
    open spec fn obeys_eq_spec() -> bool {
        true
    }

    open spec fn eq_spec(&self, other: &Self) -> bool {
        self@ == other@
    }
}

/// Equality of two values, usable where an explicit function reads
/// better than the operator.
pub fn val_eq(a: &DataType, b: &DataType) -> (r: bool)
    ensures
        r == (a@ == b@),
{
    a == b
}

/// A row is an ordered sequence of values; its abstraction is the
/// sequence of their abstractions.
pub fn clone_row(r: &Vec<DataType>) -> (res: Vec<DataType>)
    ensures
        res.deep_view() == r.deep_view(),
{
    let mut out: Vec<DataType> = Vec::new();
    let mut i: usize = 0;
    while i < r.len()
        invariant
            i <= r.len(),
            out.len() == i,
            forall|j: int| 0 <= j < i ==> out.deep_view()[j] == r.deep_view()[j],
        decreases r.len() - i,
    {
        out.push(r[i].duplicate());
        i = i + 1;
    }
    proof {
        assert(out.deep_view() =~= r.deep_view());
    }
    out
}

/// Exact string equality over character sequences.
pub fn str_eq(a: &str, b: &str) -> (r: bool)
    ensures
        r == (a@ == b@),
{
    let na = a.unicode_len();
    let nb = b.unicode_len();
    if na != nb {
        return false;
    }
    let mut i: usize = 0;
    while i < na
        invariant
            i <= na,
            na == a@.len(),
            na == b@.len(),
            forall|j: int| 0 <= j < i ==> a@[j] == b@[j],
        decreases na - i,
    {
        if a.get_char(i) != b.get_char(i) {
            return false;
        }
        i = i + 1;
    }
    proof {
        assert(a@ =~= b@);
    }
    true
}

} // verus!
