//! Values of rows and the identifiers that go with them.

use vstd::prelude::*;

use crate::common::assoc::EqKey;
use crate::common::bytes::{copy_bytes, same_bytes};
use crate::common::ordmap::{Duplicate, Order, OrdKey};

verus! {

/// A value of a column. A real number is held as the bits of its IEEE 754 double.
#[derive(Debug)]
pub enum DbValue {
    Null,
    Boolean(bool),
    Integer(i64),
    Real(u64),
    Blob(Vec<u8>),
    Text(String),
}

/// The model of a value.
pub enum SqlValue {
    Null,
    Boolean(bool),
    Integer(i64),
    Real(u64),
    Blob(Seq<u8>),
    Text(Seq<char>),
}

impl View for DbValue {
    type V = SqlValue;

    open spec fn view(&self) -> SqlValue {
        match self {
            DbValue::Null => SqlValue::Null,
            DbValue::Boolean(b) => SqlValue::Boolean(*b),
            DbValue::Integer(i) => SqlValue::Integer(*i),
            DbValue::Real(bits) => SqlValue::Real(*bits),
            DbValue::Blob(bytes) => SqlValue::Blob(bytes@),
            DbValue::Text(text) => SqlValue::Text(text@),
        }
    }
}

impl DeepView for DbValue {
    type V = SqlValue;

    open spec fn deep_view(&self) -> SqlValue {
        self@
    }
}

/// A row of a table.
pub type Row = Vec<DbValue>;

/// The number of a row.
#[derive(Debug, Clone, Copy, PartialEq, Eq, Hash, PartialOrd, Ord, Structural)]
pub struct RowId(pub u64);

impl DeepView for RowId {
    type V = RowId;

    open spec fn deep_view(&self) -> RowId {
        *self
    }
}

impl OrdKey for RowId {
    open spec fn before(a: RowId, b: RowId) -> bool {
        a.0 < b.0
    }

    proof fn before_irreflexive(a: RowId) {
    }

    proof fn before_transitive(a: RowId, b: RowId, c: RowId) {
    }

    proof fn before_total(a: RowId, b: RowId) {
    }

    fn compare(&self, other: &Self) -> (r: Order) {
        if self.0 < other.0 {
            Order::Less
        } else if self.0 == other.0 {
            Order::Equal
        } else {
            Order::Greater
        }
    }

    fn copy_key(&self) -> (r: Self) {
        *self
    }
}

/// The number of a transaction.
#[derive(Debug, Clone, Copy, PartialEq, Eq, Hash, PartialOrd, Ord, Structural)]
pub struct TransactionId(pub u64);

impl DeepView for TransactionId {
    type V = TransactionId;

    open spec fn deep_view(&self) -> TransactionId {
        *self
    }
}

impl OrdKey for TransactionId {
    open spec fn before(a: TransactionId, b: TransactionId) -> bool {
        a.0 < b.0
    }

    proof fn before_irreflexive(a: TransactionId) {
    }

    proof fn before_transitive(a: TransactionId, b: TransactionId, c: TransactionId) {
    }

    proof fn before_total(a: TransactionId, b: TransactionId) {
    }

    fn compare(&self, other: &Self) -> (r: Order) {
        if self.0 < other.0 {
            Order::Less
        } else if self.0 == other.0 {
            Order::Equal
        } else {
            Order::Greater
        }
    }

    fn copy_key(&self) -> (r: Self) {
        *self
    }
}

/// How far a transaction is kept apart from the others.
#[derive(Debug, Clone, Copy, PartialEq, Eq, Structural)]
pub enum IsolationLevel {
    ReadCommitted,
    RepeatableRead,
    Serializable,
}

/// A comparison in a condition.
#[derive(Debug, Clone, Copy, PartialEq, Eq, Structural)]
pub enum CompareOp {
    Eq,
    Ne,
    Gt,
    Gte,
    Lt,
    Lte,
}

impl DbValue {
    /// Copies a value.
    pub fn copy(&self) -> (r: DbValue)
        ensures
            r@ == self@,
    {
        match self {
            DbValue::Null => DbValue::Null,
            DbValue::Boolean(b) => DbValue::Boolean(*b),
            DbValue::Integer(i) => DbValue::Integer(*i),
            DbValue::Real(bits) => DbValue::Real(*bits),
            DbValue::Blob(bytes) => DbValue::Blob(copy_bytes(bytes)),
            DbValue::Text(text) => DbValue::Text(text.clone()),
        }
    }

    /// Whether two values are the same value of the same type.
    pub fn same(&self, other: &DbValue) -> (r: bool)
        ensures
            r == (self@ == other@),
    {
        match (self, other) {
            (DbValue::Null, DbValue::Null) => true,
            (DbValue::Boolean(a), DbValue::Boolean(b)) => *a == *b,
            (DbValue::Integer(a), DbValue::Integer(b)) => *a == *b,
            (DbValue::Real(a), DbValue::Real(b)) => *a == *b,
            (DbValue::Blob(a), DbValue::Blob(b)) => same_bytes(a.as_slice(), b.as_slice()),
            (DbValue::Text(a), DbValue::Text(b)) => *a == *b,
            _ => false,
        }
    }
}

impl Duplicate for DbValue {
    fn duplicate(&self) -> (r: DbValue) {
        self.copy()
    }
}

impl Duplicate for TransactionId {
    fn duplicate(&self) -> (r: TransactionId) {
        *self
    }
}

impl EqKey for Vec<DbValue> {
    fn same_key(&self, other: &Self) -> (r: bool) {
        same_values(self.as_slice(), other.as_slice())
    }
}

/// Copies a row.
pub fn copy_values(values: &[DbValue]) -> (r: Vec<DbValue>)
    ensures
        r.deep_view() == values.deep_view(),
{
    let mut r: Vec<DbValue> = Vec::new();
    let mut i: usize = 0;
    while i < values.len()
        invariant
            i <= values@.len(),
            r@.len() == i,
            forall|j: int| 0 <= j < i ==> (#[trigger] r@[j])@ == values@[j]@,
        decreases values@.len() - i,
    {
        r.push(values[i].copy());
        i = i + 1;
    }
    assert(r.deep_view() =~= values.deep_view());
    r
}

/// Whether two rows hold the same values.
pub fn same_values(a: &[DbValue], b: &[DbValue]) -> (r: bool)
    ensures
        r == (a.deep_view() == b.deep_view()),
{
    if a.len() != b.len() {
        assert(a.deep_view().len() != b.deep_view().len());
        return false;
    }
    let mut i: usize = 0;
    while i < a.len()
        invariant
            i <= a@.len() == b@.len(),
            forall|j: int| 0 <= j < i ==> (#[trigger] a@[j])@ == b@[j]@,
        decreases a@.len() - i,
    {
        if !a[i].same(&b[i]) {
            assert(a.deep_view()[i as int] != b.deep_view()[i as int]);
            return false;
        }
        i = i + 1;
    }
    assert(a.deep_view() =~= b.deep_view());
    true
}

} // verus!
