//! Conditions on the rows of a table.

use vstd::prelude::*;

use crate::common::schema::ColumnType;
use crate::common::value::{CompareOp, DbValue};

verus! {

/// A comparison in a condition.
pub type CheckOp = CompareOp;

/// Which ends of a text are trimmed.
#[derive(Debug, Clone, Copy, PartialEq, Eq, Structural)]
pub enum TrimSide {
    Both,
    Start,
    End,
}

/// A condition on a row.
#[derive(Debug)]
#[allow(inconsistent_fields)]
pub enum CheckExpr {
    Compare { column: String, op: CheckOp, value: DbValue },
    IsNull { column: String, negated: bool },
    Glob { column: String, pattern: String, negated: bool },
    Regexp { column: String, pattern: String, negated: bool },
    Like { column: String, pattern: String, escape: Option<String>, negated: bool },
    InList { column: String, values: Vec<DbValue>, negated: bool },
    Between { column: String, low: DbValue, high: DbValue, negated: bool },
    IsBool { column: String, value: bool, negated: bool },
    Truthy { column: String },
    IsDistinct { column: String, value: DbValue, negated: bool },
    LengthCompare { column: String, op: CheckOp, value: DbValue },
    OctetLengthCompare { column: String, op: CheckOp, value: DbValue },
    UnicodeCompare { column: String, op: CheckOp, value: DbValue },
    UnicodeIsNull { column: String, negated: bool },
    SignCompare { column: String, op: CheckOp, value: DbValue },
    HexCompare { column: String, op: CheckOp, value: DbValue },
    QuoteCompare { column: String, op: CheckOp, value: DbValue },
    NullIfIsNull { column: String, value: DbValue, negated: bool },
    ReplaceCompare {
        column: String,
        pattern: String,
        replacement: String,
        op: CheckOp,
        value: DbValue,
    },
    ReplaceColumnCompare { column: String, pattern: String, replacement: String, op: CheckOp },
    RoundCompare { column: String, precision: Option<i64>, op: CheckOp, value: DbValue },
    /// `func` is the name of the function in SQL.
    RoundingCompare { column: String, func: String, op: CheckOp, value: DbValue },
    CastCompare { column: String, target_type: ColumnType, op: CheckOp, value: DbValue },
    MinMaxColumnCompare { column: String, limit: DbValue, min: bool, op: CheckOp },
    ConcatCompare { column: String, suffix: Vec<DbValue>, op: CheckOp, value: DbValue },
    ConcatWsCompare {
        column: String,
        separator: Option<String>,
        suffix: Vec<DbValue>,
        op: CheckOp,
        value: DbValue,
    },
    JsonValidCompare { column: String, flags: Option<i64>, compare: Option<(CheckOp, DbValue)> },
    AbsCompare { column: String, op: CheckOp, value: DbValue },
    /// `func` is the name of the function in SQL.
    UnaryMathCompare { column: String, func: String, op: CheckOp, value: DbValue },
    /// `func` is the name of the function in SQL.
    BinaryMathCompare {
        column: String,
        func: String,
        argument: DbValue,
        column_is_second: bool,
        op: CheckOp,
        value: DbValue,
    },
    ArithmeticCompare { column: String, addend: DbValue, op: CheckOp, value: DbValue },
    MultiplyCompare { column: String, factor: DbValue, op: CheckOp, value: DbValue },
    DivideCompare { column: String, divisor: DbValue, op: CheckOp, value: DbValue },
    ModuloCompare {
        column: String,
        divisor: DbValue,
        op: CheckOp,
        value: DbValue,
        function_form: bool,
    },
    TypeOfCompare { column: String, op: CheckOp, value: DbValue },
    NoCaseCompare { column: String, collation: String, op: CheckOp, value: DbValue },
    CaseFoldCompare { column: String, upper: bool, op: CheckOp, value: DbValue },
    TrimCompare {
        column: String,
        side: TrimSide,
        characters: Option<String>,
        op: CheckOp,
        value: DbValue,
    },
    CoalesceCompare { column: String, fallbacks: Vec<DbValue>, op: CheckOp, value: DbValue },
    InstrCompare { column: String, needle: DbValue, op: CheckOp, value: DbValue },
    SubstrCompare {
        column: String,
        start: i64,
        length: Option<i64>,
        op: CheckOp,
        value: DbValue,
    },
    And(Box<CheckExpr>, Box<CheckExpr>),
    Or(Box<CheckExpr>, Box<CheckExpr>),
    Not(Box<CheckExpr>),
}

/// A named condition.
#[derive(Debug)]
pub struct CheckConstraint {
    pub name: String,
    /// Whether the definition gave the name.
    pub explicit_name: bool,
    pub expr: CheckExpr,
}

} // verus!
