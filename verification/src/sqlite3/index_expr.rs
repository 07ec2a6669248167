//! The values of expressions, and the terms of indexes.

use vstd::prelude::*;

use crate::common::ordmap::Order;
use crate::common::schema::{ColumnType, Schema};
use crate::common::value::{DbValue, SqlValue};
use crate::sqlite3::arithmetic::{
    coerce_arithmetic_value, evaluate_operator, in_result_value, integer_of, listed, number_of,
    operated, sqlite_bitwise_integer_arg, ScalarBinaryOp,
};
use crate::sqlite3::expr::{
    all_constant, cases_constant, aggregate_error, aggregate_failure, check_view,
    contains_current_time_scalar_expr, is_constant, is_constant_scalar_expr, is_current,
    require_scalar_expr_columns, required, subquery_error, subquery_failure, unknown_column,
    unknown_column_text, ScalarExpr,
};
use crate::sqlite3::functions::{
    applied, arity_check, evaluate_scalar_function, expect_arity, ScalarFunc,
};
use crate::sqlite3::json_functions::{arrow_value, evaluate_json_arrow_operator};
use crate::sqlite3::patterns::{
    escape_char, glob, like, like_escape_char, matches_glob_pattern, matches_like_pattern,
};
use crate::sqlite3::reals::{
    fail, negated_bits, plain_view, real_negated, stop_view, storage_stop, Eval, Facts, RealFacts,
    Stop, StopView,
};
use crate::sqlite3::values::{
    cast, cast_value, coerce_text_like_value, compare, compare_with_operator, compared, comparison,
    is_true, negation, sqlite_is_true_value, sqlite_not_value, value_text,
};

verus! {

/// The failure that a row has no value for a column.
pub open spec fn missing_column(table: Seq<char>, name: Seq<char>) -> StopView {
    storage_stop("row for table "@ + table + " is missing column "@ + name)
}

/// The failure that a row has no value for a column.
pub fn fail_missing(table: &str, name: &str) -> (r: Stop)
    ensures
        r@ == missing_column(table@, name@),
{
    let mut out = "row for table ".to_owned();
    out.append(table);
    out.append(" is missing column ");
    out.append(name);
    fail(out.as_str())
}

/// The value of a column in a row.
pub open spec fn column_value(schema: Schema, row: Seq<SqlValue>, name: Seq<char>) -> Result<
    SqlValue,
    StopView,
> {
    match schema.position(name) {
        None => Err(storage_stop(unknown_column(schema.name@, name))),
        Some(i) => if i < row.len() {
            Ok(row[i])
        } else {
            Err(missing_column(schema.name@, name))
        },
    }
}

/// The value of a column in a row.
pub fn read_column(schema: &Schema, row: &Vec<DbValue>, name: &str) -> (r: Eval<DbValue>)
    ensures
        stop_view(r) == column_value(*schema, row.deep_view(), name@),
{
    match schema.column_index(name) {
        None => Err(fail(unknown_column_text(schema.name.as_str(), name).as_str())),
        Some(i) => {
            if i < row.len() {
                assert(row.deep_view()[i as int] == row@[i as int]@);
                Ok(row[i].copy())
            } else {
                Err(fail_missing(schema.name.as_str(), name))
            }
        },
    }
}

/// A value with its sign turned.
pub open spec fn minus(f: Facts, v: SqlValue) -> Result<SqlValue, StopView> {
    match number_of(f, v) {
        Err(s) => Err(s),
        Ok(SqlValue::Integer(i)) => if i == i64::MIN {
            Err(storage_stop("integer overflow"@))
        } else {
            Ok(SqlValue::Integer((-i) as i64))
        },
        Ok(SqlValue::Real(bits)) => Ok(SqlValue::Real(real_negated(bits))),
        Ok(_) => Ok(SqlValue::Null),
    }
}

fn minus_value(facts: &RealFacts, v: &DbValue) -> (r: Eval<DbValue>)
    ensures
        stop_view(r) == minus(facts@, v@),
{
    match coerce_arithmetic_value(facts, v)? {
        DbValue::Integer(i) => {
            if i == i64::MIN {
                Err(fail("integer overflow"))
            } else {
                Ok(DbValue::Integer(-i))
            }
        },
        DbValue::Real(bits) => Ok(DbValue::Real(negated_bits(bits))),
        _ => Ok(DbValue::Null),
    }
}

/// A value with every bit of its integer turned.
pub open spec fn inverted(f: Facts, v: SqlValue) -> Result<SqlValue, StopView> {
    if v is Null {
        Ok(SqlValue::Null)
    } else {
        match integer_of(f, v) {
            Err(s) => Err(s),
            Ok(i) => Ok(SqlValue::Integer((-1 - i) as i64)),
        }
    }
}

fn inverted_value(facts: &RealFacts, v: &DbValue) -> (r: Eval<DbValue>)
    ensures
        stop_view(r) == inverted(facts@, v@),
{
    if let DbValue::Null = v {
        return Ok(DbValue::Null);
    }
    let i: i64 = sqlite_bitwise_integer_arg(facts, v)?;
    Ok(DbValue::Integer(-1 - i))
}

/// Whether a value is true, or false, as asked.
pub open spec fn is_truth(f: Facts, v: SqlValue, value: bool, negated: bool) -> Result<
    SqlValue,
    StopView,
> {
    if v is Null {
        Ok(SqlValue::Boolean(negated))
    } else {
        match is_true(f, v) {
            Err(s) => Err(s),
            Ok(b) => Ok(SqlValue::Boolean((b == value) != negated)),
        }
    }
}

fn is_truth_value(facts: &RealFacts, v: &DbValue, value: bool, negated: bool) -> (r: Eval<DbValue>)
    ensures
        stop_view(r) == is_truth(facts@, v@, value, negated),
{
    if let DbValue::Null = v {
        return Ok(DbValue::Boolean(negated));
    }
    let b = sqlite_is_true_value(facts, v)?;
    Ok(DbValue::Boolean((b == value) != negated))
}

/// Whether a value lies between two others, both included.
pub open spec fn between(f: Facts, v: SqlValue, low: SqlValue, high: SqlValue, negated: bool) -> Result<
    SqlValue,
    StopView,
> {
    match comparison(f, v, low) {
        Err(s) => Err(s),
        Ok(None) => Ok(SqlValue::Null),
        Ok(Some(a)) => match comparison(f, v, high) {
            Err(s) => Err(s),
            Ok(None) => Ok(SqlValue::Null),
            Ok(Some(b)) => Ok(SqlValue::Boolean((!(a is Less) && !(b is Greater)) != negated)),
        },
    }
}

fn between_value(facts: &RealFacts, v: &DbValue, low: &DbValue, high: &DbValue, negated: bool) -> (r:
    Eval<DbValue>)
    ensures
        stop_view(r) == between(facts@, v@, low@, high@, negated),
{
    let a = match compare(facts, v, low)? {
        None => {
            return Ok(DbValue::Null);
        },
        Some(a) => a,
    };
    let b = match compare(facts, v, high)? {
        None => {
            return Ok(DbValue::Null);
        },
        Some(b) => b,
    };
    let above = match a {
        Order::Less => false,
        _ => true,
    };
    let below = match b {
        Order::Greater => false,
        _ => true,
    };
    Ok(DbValue::Boolean((above && below) != negated))
}

/// The result of a comparison: null where one side is null.
pub open spec fn compared_value(
    f: Facts,
    a: SqlValue,
    op: crate::common::value::CompareOp,
    b: SqlValue,
) -> Result<SqlValue, StopView> {
    if a is Null || b is Null {
        Ok(SqlValue::Null)
    } else {
        match compared(f, a, op, b) {
            Err(s) => Err(s),
            Ok(x) => Ok(SqlValue::Boolean(x)),
        }
    }
}

fn compare_values(
    facts: &RealFacts,
    a: &DbValue,
    op: crate::common::value::CompareOp,
    b: &DbValue,
) -> (r: Eval<DbValue>)
    ensures
        stop_view(r) == compared_value(facts@, a@, op, b@),
{
    match (a, b) {
        (DbValue::Null, _) => {
            return Ok(DbValue::Null);
        },
        (_, DbValue::Null) => {
            return Ok(DbValue::Null);
        },
        _ => {},
    }
    let x = compare_with_operator(facts, a, op, b)?;
    Ok(DbValue::Boolean(x))
}

/// The result of an operator between two values.
pub open spec fn binary_value(f: Facts, op: ScalarBinaryOp, a: SqlValue, b: SqlValue) -> Result<
    SqlValue,
    StopView,
> {
    match op {
        ScalarBinaryOp::JsonExtract => arrow_value(f, a, b, false),
        ScalarBinaryOp::JsonExtractText => arrow_value(f, a, b, true),
        _ => operated(f, op, a, b),
    }
}

/// Evaluates an operator between two values.
pub fn evaluate_binary_scalar(facts: &RealFacts, op: ScalarBinaryOp, a: &DbValue, b: &DbValue) -> (r:
    Eval<DbValue>)
    ensures
        stop_view(r) == binary_value(facts@, op, a@, b@),
{
    match op {
        ScalarBinaryOp::JsonExtract => evaluate_json_arrow_operator(facts, a, b, false),
        ScalarBinaryOp::JsonExtractText => evaluate_json_arrow_operator(facts, a, b, true),
        _ => evaluate_operator(facts, op, a, b),
    }
}

/// Whether the text of a value matches a pattern; null where the value is null.
pub open spec fn like_matched(
    f: Facts,
    v: SqlValue,
    pattern: Seq<char>,
    escape: Option<Seq<char>>,
    cased: bool,
    negated: bool,
) -> Result<SqlValue, StopView> {
    if v is Null {
        Ok(SqlValue::Null)
    } else {
        match value_text(f, v) {
            Err(s) => Err(s),
            Ok(t) => match like(t, pattern, escape, cased) {
                Err(s) => Err(s),
                Ok(b) => Ok(SqlValue::Boolean(b != negated)),
            },
        }
    }
}

fn match_like_value(
    facts: &RealFacts,
    v: &DbValue,
    pattern: &str,
    escape: Option<&str>,
    cased: bool,
    negated: bool,
) -> (r: Eval<DbValue>)
    ensures
        stop_view(r) == like_matched(
            facts@,
            v@,
            pattern@,
            match escape {
                Some(t) => Some(t@),
                None => None,
            },
            cased,
            negated,
        ),
{
    if let DbValue::Null = v {
        return Ok(DbValue::Null);
    }
    let t = coerce_text_like_value(facts, v)?;
    let b = matches_like_pattern(t.as_str(), pattern, escape, cased)?;
    Ok(DbValue::Boolean(b != negated))
}

/// Whether the text of a value matches a glob pattern; null where the value is null.
pub open spec fn glob_matched(f: Facts, v: SqlValue, pattern: Seq<char>, negated: bool) -> Result<
    SqlValue,
    StopView,
> {
    if v is Null {
        Ok(SqlValue::Null)
    } else {
        match value_text(f, v) {
            Err(s) => Err(s),
            Ok(t) => Ok(SqlValue::Boolean(glob(t, pattern) != negated)),
        }
    }
}

fn match_glob_value(facts: &RealFacts, v: &DbValue, pattern: &str, negated: bool) -> (r: Eval<
    DbValue,
>)
    ensures
        stop_view(r) == glob_matched(facts@, v@, pattern@, negated),
{
    if let DbValue::Null = v {
        return Ok(DbValue::Null);
    }
    let t = coerce_text_like_value(facts, v)?;
    Ok(DbValue::Boolean(matches_glob_pattern(t.as_str(), pattern) != negated))
}

/// The model of several values.
pub open spec fn values_view(r: Eval<Vec<DbValue>>) -> Result<Seq<SqlValue>, StopView> {
    match r {
        Ok(v) => Ok(v.deep_view()),
        Err(s) => Err(s@),
    }
}

/// The values of expressions from a position on, behind those already there.
pub open spec fn evaluated_from(
    f: Facts,
    schema: Schema,
    row: Seq<SqlValue>,
    items: Seq<ScalarExpr>,
    i: int,
    cased: bool,
    out: Seq<SqlValue>,
) -> Result<Seq<SqlValue>, StopView>
    decreases items, items.len() - i,
{
    if i < 0 || i >= items.len() {
        Ok(out)
    } else {
        match evaluated(f, schema, row, items[i], cased) {
            Err(s) => Err(s),
            Ok(v) => evaluated_from(f, schema, row, items, i + 1, cased, out.push(v)),
        }
    }
}

/// The value of the first branch from a position on whose condition holds, or of the
/// default.
pub open spec fn chosen_from(
    f: Facts,
    schema: Schema,
    row: Seq<SqlValue>,
    items: Seq<ScalarExpr>,
    i: int,
    cased: bool,
) -> Result<SqlValue, StopView>
    decreases items, items.len() - i,
{
    if i < 0 || i >= items.len() {
        Ok(SqlValue::Null)
    } else if i + 1 == items.len() {
        evaluated(f, schema, row, items[i], cased)
    } else {
        match evaluated(f, schema, row, items[i], cased) {
            Err(s) => Err(s),
            Ok(v) => match cast(f, v, ColumnType::Boolean) {
                Err(s) => Err(s),
                Ok(c) => if c == SqlValue::Boolean(true) {
                    evaluated(f, schema, row, items[i + 1], cased)
                } else {
                    chosen_from(f, schema, row, items, i + 2, cased)
                },
            },
        }
    }
}

/// What a branch of a case is tested for: equality with the base, or truth.
pub open spec fn branch_taken(f: Facts, base: Option<SqlValue>, v: SqlValue) -> Result<
    bool,
    StopView,
> {
    match base {
        Some(b) => match comparison(f, b, v) {
            Err(s) => Err(s),
            Ok(c) => Ok(c == Some(Order::Equal)),
        },
        None => match cast(f, v, ColumnType::Boolean) {
            Err(s) => Err(s),
            Ok(c) => Ok(c == SqlValue::Boolean(true)),
        },
    }
}

fn takes_branch(facts: &RealFacts, base: &Option<DbValue>, v: &DbValue) -> (r: Eval<bool>)
    ensures
        plain_view(r) == branch_taken(facts@, value_option(*base), v@),
{
    match base {
        Some(b) => match compare(facts, b, v)? {
            Some(Order::Equal) => Ok(true),
            _ => Ok(false),
        },
        None => match cast_value(facts, v, ColumnType::Boolean)? {
            DbValue::Boolean(true) => Ok(true),
            _ => Ok(false),
        },
    }
}

/// The model of a value that may be missing.
pub open spec fn value_option(v: Option<DbValue>) -> Option<SqlValue> {
    match v {
        Some(x) => Some(x@),
        None => None,
    }
}

/// The branch from a position on that a case takes: the value it gives, or none.
pub open spec fn case_from(
    f: Facts,
    schema: Schema,
    row: Seq<SqlValue>,
    base: Option<SqlValue>,
    items: Seq<(ScalarExpr, ScalarExpr)>,
    i: int,
    cased: bool,
) -> Result<Option<SqlValue>, StopView>
    decreases items, items.len() - i,
{
    if i < 0 || i >= items.len() {
        Ok(None)
    } else {
        match evaluated(f, schema, row, items[i].0, cased) {
            Err(s) => Err(s),
            Ok(v) => match branch_taken(f, base, v) {
                Err(s) => Err(s),
                Ok(taken) => if taken {
                    match evaluated(f, schema, row, items[i].1, cased) {
                        Err(s) => Err(s),
                        Ok(x) => Ok(Some(x)),
                    }
                } else {
                    case_from(f, schema, row, base, items, i + 1, cased)
                },
            },
        }
    }
}

/// The value of an expression in a row of a table.
pub open spec fn evaluated(
    f: Facts,
    schema: Schema,
    row: Seq<SqlValue>,
    expr: ScalarExpr,
    cased: bool,
) -> Result<SqlValue, StopView>
    decreases expr, 0int,
{
    match expr {
        ScalarExpr::Literal(v) => Ok(v@),
        ScalarExpr::Tuple(_) => Err(
            storage_stop("row value expressions cannot be evaluated as sqlite index values"@),
        ),
        ScalarExpr::Column(name) => column_value(schema, row, name@),
        ScalarExpr::UnaryPlus(e) => evaluated(f, schema, row, *e, cased),
        ScalarExpr::UnaryMinus(e) => match evaluated(f, schema, row, *e, cased) {
            Err(s) => Err(s),
            Ok(v) => minus(f, v),
        },
        ScalarExpr::BitNot(e) => match evaluated(f, schema, row, *e, cased) {
            Err(s) => Err(s),
            Ok(v) => inverted(f, v),
        },
        ScalarExpr::Not(e) => match evaluated(f, schema, row, *e, cased) {
            Err(s) => Err(s),
            Ok(v) => negation(f, v),
        },
        ScalarExpr::Collate { expr: e, .. } => evaluated(f, schema, row, *e, cased),
        ScalarExpr::Cast { expr: e, ty } => match evaluated(f, schema, row, *e, cased) {
            Err(s) => Err(s),
            Ok(v) => cast(f, v, ty),
        },
        ScalarExpr::Is { left, right, negated } => match evaluated(f, schema, row, *left, cased) {
            Err(s) => Err(s),
            Ok(a) => match evaluated(f, schema, row, *right, cased) {
                Err(s) => Err(s),
                Ok(b) => Ok(SqlValue::Boolean((a == b) != negated)),
            },
        },
        ScalarExpr::IsBool { expr: e, value, negated } => match evaluated(
            f,
            schema,
            row,
            *e,
            cased,
        ) {
            Err(s) => Err(s),
            Ok(v) => is_truth(f, v, value, negated),
        },
        ScalarExpr::InList { expr: e, values, negated } => match evaluated(
            f,
            schema,
            row,
            *e,
            cased,
        ) {
            Err(s) => Err(s),
            Ok(v) => match evaluated_from(f, schema, row, values@, 0, cased, Seq::empty()) {
                Err(s) => Err(s),
                Ok(list) => listed(f, v, list, negated),
            },
        },
        ScalarExpr::InSubquery { .. } => Err(StopView::Fail(subquery_error())),
        ScalarExpr::Subquery { .. } => Err(StopView::Fail(subquery_error())),
        ScalarExpr::CompareSubquery { .. } => Err(StopView::Fail(subquery_error())),
        ScalarExpr::WindowFunction { .. } => Err(StopView::Fail(subquery_error())),
        ScalarExpr::Like { expr: e, pattern, escape, negated } => match evaluated(
            f,
            schema,
            row,
            *pattern,
            cased,
        ) {
            Err(s) => Err(s),
            Ok(SqlValue::Null) => Ok(SqlValue::Null),
            Ok(p) => match value_text(f, p) {
                Err(s) => Err(s),
                Ok(pattern_text) => match escape {
                    None => match evaluated(f, schema, row, *e, cased) {
                        Err(s) => Err(s),
                        Ok(v) => like_matched(f, v, pattern_text, None, cased, negated),
                    },
                    Some(x) => match evaluated(f, schema, row, *x, cased) {
                        Err(s) => Err(s),
                        Ok(SqlValue::Null) => Ok(SqlValue::Null),
                        Ok(y) => match value_text(f, y) {
                            Err(s) => Err(s),
                            Ok(escape_text) => match escape_char(Some(escape_text)) {
                                Err(s) => Err(s),
                                Ok(_) => match evaluated(f, schema, row, *e, cased) {
                                    Err(s) => Err(s),
                                    Ok(v) => like_matched(
                                        f,
                                        v,
                                        pattern_text,
                                        Some(escape_text),
                                        cased,
                                        negated,
                                    ),
                                },
                            },
                        },
                    },
                },
            },
        },
        ScalarExpr::Glob { expr: e, pattern, negated } => match evaluated(
            f,
            schema,
            row,
            *pattern,
            cased,
        ) {
            Err(s) => Err(s),
            Ok(SqlValue::Null) => Ok(SqlValue::Null),
            Ok(p) => match value_text(f, p) {
                Err(s) => Err(s),
                Ok(pattern_text) => match evaluated(f, schema, row, *e, cased) {
                    Err(s) => Err(s),
                    Ok(v) => glob_matched(f, v, pattern_text, negated),
                },
            },
        },
        ScalarExpr::Between { expr: e, low, high, negated } => match evaluated(
            f,
            schema,
            row,
            *e,
            cased,
        ) {
            Err(s) => Err(s),
            Ok(v) => match evaluated(f, schema, row, *low, cased) {
                Err(s) => Err(s),
                Ok(a) => match evaluated(f, schema, row, *high, cased) {
                    Err(s) => Err(s),
                    Ok(b) => between(f, v, a, b, negated),
                },
            },
        },
        ScalarExpr::Compare { left, op, right } => match evaluated(f, schema, row, *left, cased) {
            Err(s) => Err(s),
            Ok(a) => match evaluated(f, schema, row, *right, cased) {
                Err(s) => Err(s),
                Ok(b) => compared_value(f, a, op, b),
            },
        },
        ScalarExpr::Case { base, when_then_clauses, else_expr } => match (match base {
            None => Ok(None),
            Some(x) => match evaluated(f, schema, row, *x, cased) {
                Err(s) => Err(s),
                Ok(v) => Ok(Some(v)),
            },
        }) {
            Err(s) => Err(s),
            Ok(base_value) => match case_from(
                f,
                schema,
                row,
                base_value,
                when_then_clauses@,
                0,
                cased,
            ) {
                Err(s) => Err(s),
                Ok(Some(v)) => Ok(v),
                Ok(None) => match else_expr {
                    Some(x) => evaluated(f, schema, row, *x, cased),
                    None => Ok(SqlValue::Null),
                },
            },
        },
        ScalarExpr::Binary { left, op, right } => match evaluated(f, schema, row, *left, cased) {
            Err(s) => Err(s),
            Ok(a) => match evaluated(f, schema, row, *right, cased) {
                Err(s) => Err(s),
                Ok(b) => binary_value(f, op, a, b),
            },
        },
        ScalarExpr::Function { func, args } => if func == ScalarFunc::IIf || func
            == ScalarFunc::If {
            match arity_check(func, args@.len()) {
                Err(s) => Err(s),
                Ok(_) => chosen_from(f, schema, row, args@, 0, cased),
            }
        } else {
            match evaluated_from(f, schema, row, args@, 0, cased, Seq::empty()) {
                Err(s) => Err(s),
                Ok(values) => applied(f, func, values, cased),
            }
        },
        ScalarExpr::Aggregate { .. } => Err(StopView::Fail(aggregate_error())),
    }
}

fn evaluate_all(
    facts: &RealFacts,
    schema: &Schema,
    row: &Vec<DbValue>,
    items: &Vec<ScalarExpr>,
    cased: bool,
) -> (r: Eval<Vec<DbValue>>)
    ensures
        values_view(r) == evaluated_from(
            facts@,
            *schema,
            row.deep_view(),
            items@,
            0,
            cased,
            Seq::empty(),
        ),
    decreases items,
{
    let mut out: Vec<DbValue> = Vec::new();
    let mut i: usize = 0;
    assert(out.deep_view() =~= Seq::<SqlValue>::empty());
    while i < items.len()
        invariant
            i <= items@.len(),
            evaluated_from(
                facts@,
                *schema,
                row.deep_view(),
                items@,
                i as int,
                cased,
                out.deep_view(),
            ) == evaluated_from(
                facts@,
                *schema,
                row.deep_view(),
                items@,
                0,
                cased,
                Seq::empty(),
            ),
        decreases items@.len() - i,
    {
        assert(decreases_to!(items => items@[i as int]));
        let v = evaluate_scalar_expr_with_like_mode(facts, schema, row, &items[i], cased)?;
        let ghost before = out.deep_view();
        out.push(v);
        assert(out.deep_view() =~= before.push(v@));
        i = i + 1;
    }
    Ok(out)
}

fn choose_branch(
    facts: &RealFacts,
    schema: &Schema,
    row: &Vec<DbValue>,
    items: &Vec<ScalarExpr>,
    cased: bool,
) -> (r: Eval<DbValue>)
    ensures
        stop_view(r) == chosen_from(facts@, *schema, row.deep_view(), items@, 0, cased),
    decreases items,
{
    let total: usize = items.len();
    let mut i: usize = 0;
    while i < total && total - i >= 2
        invariant
            i <= items@.len() == total,
            chosen_from(facts@, *schema, row.deep_view(), items@, i as int, cased) == chosen_from(
                facts@,
                *schema,
                row.deep_view(),
                items@,
                0,
                cased,
            ),
        decreases total - i,
    {
        assert(decreases_to!(items => items@[i as int]));
        assert(decreases_to!(items => items@[i + 1]));
        let v = evaluate_scalar_expr_with_like_mode(facts, schema, row, &items[i], cased)?;
        match cast_value(facts, &v, ColumnType::Boolean)? {
            DbValue::Boolean(true) => {
                return evaluate_scalar_expr_with_like_mode(facts, schema, row, &items[i + 1], cased);
            },
            _ => {},
        }
        i = i + 2;
    }
    if i < total {
        assert(decreases_to!(items => items@[i as int]));
        return evaluate_scalar_expr_with_like_mode(facts, schema, row, &items[i], cased);
    }
    Ok(DbValue::Null)
}

/// The model of a value that an evaluation may not give.
pub open spec fn maybe_value(r: Eval<Option<DbValue>>) -> Result<Option<SqlValue>, StopView> {
    match r {
        Ok(v) => Ok(value_option(v)),
        Err(s) => Err(s@),
    }
}

fn take_case(
    facts: &RealFacts,
    schema: &Schema,
    row: &Vec<DbValue>,
    base: &Option<DbValue>,
    items: &Vec<(ScalarExpr, ScalarExpr)>,
    cased: bool,
) -> (r: Eval<Option<DbValue>>)
    ensures
        maybe_value(r) == case_from(
            facts@,
            *schema,
            row.deep_view(),
            value_option(*base),
            items@,
            0,
            cased,
        ),
    decreases items,
{
    let mut i: usize = 0;
    while i < items.len()
        invariant
            i <= items@.len(),
            case_from(
                facts@,
                *schema,
                row.deep_view(),
                value_option(*base),
                items@,
                i as int,
                cased,
            ) == case_from(
                facts@,
                *schema,
                row.deep_view(),
                value_option(*base),
                items@,
                0,
                cased,
            ),
        decreases items@.len() - i,
    {
        assert(decreases_to!(items => items@[i as int].0));
        assert(decreases_to!(items => items@[i as int].1));
        let v = evaluate_scalar_expr_with_like_mode(facts, schema, row, &items[i].0, cased)?;
        if takes_branch(facts, base, &v)? {
            let x = evaluate_scalar_expr_with_like_mode(facts, schema, row, &items[i].1, cased)?;
            return Ok(Some(x));
        }
        i = i + 1;
    }
    Ok(None)
}

/// Evaluates an expression in a row of a table. `cased` says whether `LIKE` tells upper from
/// lower case.
#[verifier::rlimit(40)]
pub fn evaluate_scalar_expr_with_like_mode(
    facts: &RealFacts,
    schema: &Schema,
    row: &Vec<DbValue>,
    expr: &ScalarExpr,
    cased: bool,
) -> (r: Eval<DbValue>)
    ensures
        stop_view(r) == evaluated(facts@, *schema, row.deep_view(), *expr, cased),
    decreases expr,
{
    match expr {
        ScalarExpr::Literal(v) => Ok(v.copy()),
        ScalarExpr::Tuple(_) => Err(
            fail("row value expressions cannot be evaluated as sqlite index values"),
        ),
        ScalarExpr::Column(name) => read_column(schema, row, name.as_str()),
        ScalarExpr::UnaryPlus(e) => evaluate_scalar_expr_with_like_mode(
            facts,
            schema,
            row,
            e,
            cased,
        ),
        ScalarExpr::UnaryMinus(e) => {
            let v = evaluate_scalar_expr_with_like_mode(facts, schema, row, e, cased)?;
            minus_value(facts, &v)
        },
        ScalarExpr::BitNot(e) => {
            let v = evaluate_scalar_expr_with_like_mode(facts, schema, row, e, cased)?;
            inverted_value(facts, &v)
        },
        ScalarExpr::Not(e) => {
            let v = evaluate_scalar_expr_with_like_mode(facts, schema, row, e, cased)?;
            sqlite_not_value(facts, &v)
        },
        ScalarExpr::Collate { expr: e, .. } => evaluate_scalar_expr_with_like_mode(
            facts,
            schema,
            row,
            e,
            cased,
        ),
        ScalarExpr::Cast { expr: e, ty } => {
            let v = evaluate_scalar_expr_with_like_mode(facts, schema, row, e, cased)?;
            cast_value(facts, &v, *ty)
        },
        ScalarExpr::Is { left, right, negated } => {
            let a = evaluate_scalar_expr_with_like_mode(facts, schema, row, left, cased)?;
            let b = evaluate_scalar_expr_with_like_mode(facts, schema, row, right, cased)?;
            Ok(DbValue::Boolean(a.same(&b) != *negated))
        },
        ScalarExpr::IsBool { expr: e, value, negated } => {
            let v = evaluate_scalar_expr_with_like_mode(facts, schema, row, e, cased)?;
            is_truth_value(facts, &v, *value, *negated)
        },
        ScalarExpr::InList { expr: e, values, negated } => {
            let v = evaluate_scalar_expr_with_like_mode(facts, schema, row, e, cased)?;
            let list = evaluate_all(facts, schema, row, values, cased)?;
            in_result_value(facts, &v, &list, *negated)
        },
        ScalarExpr::InSubquery { .. } => Err(Stop::Fail(subquery_failure())),
        ScalarExpr::Subquery { .. } => Err(Stop::Fail(subquery_failure())),
        ScalarExpr::CompareSubquery { .. } => Err(Stop::Fail(subquery_failure())),
        ScalarExpr::WindowFunction { .. } => Err(Stop::Fail(subquery_failure())),
        ScalarExpr::Like { expr: e, pattern, escape, negated } => {
            let p = evaluate_scalar_expr_with_like_mode(facts, schema, row, pattern, cased)?;
            if let DbValue::Null = p {
                return Ok(DbValue::Null);
            }
            let pattern_text = coerce_text_like_value(facts, &p)?;
            match escape {
                None => {
                    let v = evaluate_scalar_expr_with_like_mode(facts, schema, row, e, cased)?;
                    match_like_value(facts, &v, pattern_text.as_str(), None, cased, *negated)
                },
                Some(x) => {
                    let y = evaluate_scalar_expr_with_like_mode(facts, schema, row, x, cased)?;
                    if let DbValue::Null = y {
                        return Ok(DbValue::Null);
                    }
                    let escape_text = coerce_text_like_value(facts, &y)?;
                    let _ = like_escape_char(Some(escape_text.as_str()))?;
                    let v = evaluate_scalar_expr_with_like_mode(facts, schema, row, e, cased)?;
                    match_like_value(
                        facts,
                        &v,
                        pattern_text.as_str(),
                        Some(escape_text.as_str()),
                        cased,
                        *negated,
                    )
                },
            }
        },
        ScalarExpr::Glob { expr: e, pattern, negated } => {
            let p = evaluate_scalar_expr_with_like_mode(facts, schema, row, pattern, cased)?;
            if let DbValue::Null = p {
                return Ok(DbValue::Null);
            }
            let pattern_text = coerce_text_like_value(facts, &p)?;
            let v = evaluate_scalar_expr_with_like_mode(facts, schema, row, e, cased)?;
            match_glob_value(facts, &v, pattern_text.as_str(), *negated)
        },
        ScalarExpr::Between { expr: e, low, high, negated } => {
            let v = evaluate_scalar_expr_with_like_mode(facts, schema, row, e, cased)?;
            let a = evaluate_scalar_expr_with_like_mode(facts, schema, row, low, cased)?;
            let b = evaluate_scalar_expr_with_like_mode(facts, schema, row, high, cased)?;
            between_value(facts, &v, &a, &b, *negated)
        },
        ScalarExpr::Compare { left, op, right } => {
            let a = evaluate_scalar_expr_with_like_mode(facts, schema, row, left, cased)?;
            let b = evaluate_scalar_expr_with_like_mode(facts, schema, row, right, cased)?;
            compare_values(facts, &a, *op, &b)
        },
        ScalarExpr::Case { base, when_then_clauses, else_expr } => {
            let base_value = match base {
                None => None,
                Some(x) => {
                    let v = evaluate_scalar_expr_with_like_mode(facts, schema, row, x, cased)?;
                    Some(v)
                },
            };
            match take_case(facts, schema, row, &base_value, when_then_clauses, cased)? {
                Some(v) => Ok(v),
                None => match else_expr {
                    Some(x) => evaluate_scalar_expr_with_like_mode(facts, schema, row, x, cased),
                    None => Ok(DbValue::Null),
                },
            }
        },
        ScalarExpr::Binary { left, op, right } => {
            let a = evaluate_scalar_expr_with_like_mode(facts, schema, row, left, cased)?;
            let b = evaluate_scalar_expr_with_like_mode(facts, schema, row, right, cased)?;
            evaluate_binary_scalar(facts, *op, &a, &b)
        },
        ScalarExpr::Function { func, args } => {
            if *func == ScalarFunc::IIf || *func == ScalarFunc::If {
                expect_arity(*func, args.len())?;
                return choose_branch(facts, schema, row, args, cased);
            }
            let values = evaluate_all(facts, schema, row, args, cased)?;
            let slice = values.as_slice();
            assert(slice.deep_view() =~= values.deep_view());
            evaluate_scalar_function(facts, *func, slice, cased)
        },
        ScalarExpr::Aggregate { .. } => Err(Stop::Fail(aggregate_failure())),
    }
}

// ---------------------------------------------------------------------------
// Constants and terms of indexes

proof fn lemma_constants_ignore_row(
    f: Facts,
    s1: Schema,
    r1: Seq<SqlValue>,
    s2: Schema,
    r2: Seq<SqlValue>,
    items: Seq<ScalarExpr>,
    i: int,
    cased: bool,
    out: Seq<SqlValue>,
)
    requires
        all_constant(items, i),
        0 <= i,
    ensures
        evaluated_from(f, s1, r1, items, i, cased, out) == evaluated_from(
            f,
            s2,
            r2,
            items,
            i,
            cased,
            out,
        ),
    decreases items, items.len() - i,
{
    if i < items.len() {
        law_constant_ignores_row(f, s1, r1, s2, r2, items[i], cased);
        match evaluated(f, s1, r1, items[i], cased) {
            Ok(v) => {
                lemma_constants_ignore_row(f, s1, r1, s2, r2, items, i + 1, cased, out.push(v));
            },
            Err(_) => {},
        }
    }
}

proof fn lemma_choice_ignores_row(
    f: Facts,
    s1: Schema,
    r1: Seq<SqlValue>,
    s2: Schema,
    r2: Seq<SqlValue>,
    items: Seq<ScalarExpr>,
    i: int,
    cased: bool,
)
    requires
        all_constant(items, i),
        0 <= i,
    ensures
        chosen_from(f, s1, r1, items, i, cased) == chosen_from(f, s2, r2, items, i, cased),
    decreases items, items.len() - i,
{
    if i < items.len() {
        law_constant_ignores_row(f, s1, r1, s2, r2, items[i], cased);
        if i + 1 < items.len() {
            assert(all_constant(items, i + 1));
            law_constant_ignores_row(f, s1, r1, s2, r2, items[i + 1], cased);
            assert(all_constant(items, i + 2));
            lemma_choice_ignores_row(f, s1, r1, s2, r2, items, i + 2, cased);
        }
    }
}

proof fn lemma_cases_ignore_row(
    f: Facts,
    s1: Schema,
    r1: Seq<SqlValue>,
    s2: Schema,
    r2: Seq<SqlValue>,
    base: Option<SqlValue>,
    items: Seq<(ScalarExpr, ScalarExpr)>,
    i: int,
    cased: bool,
)
    requires
        cases_constant(items, i),
        0 <= i,
    ensures
        case_from(f, s1, r1, base, items, i, cased) == case_from(f, s2, r2, base, items, i, cased),
    decreases items, items.len() - i,
{
    if i < items.len() {
        law_constant_ignores_row(f, s1, r1, s2, r2, items[i].0, cased);
        law_constant_ignores_row(f, s1, r1, s2, r2, items[i].1, cased);
        lemma_cases_ignore_row(f, s1, r1, s2, r2, base, items, i + 1, cased);
    }
}

/// The value of a constant expression is the same in every row of every table.
#[verifier::rlimit(40)]
pub proof fn law_constant_ignores_row(
    f: Facts,
    s1: Schema,
    r1: Seq<SqlValue>,
    s2: Schema,
    r2: Seq<SqlValue>,
    expr: ScalarExpr,
    cased: bool,
)
    requires
        is_constant(expr),
    ensures
        evaluated(f, s1, r1, expr, cased) == evaluated(f, s2, r2, expr, cased),
    decreases expr, 0int,
{
    match expr {
        ScalarExpr::UnaryPlus(e) => law_constant_ignores_row(f, s1, r1, s2, r2, *e, cased),
        ScalarExpr::UnaryMinus(e) => law_constant_ignores_row(f, s1, r1, s2, r2, *e, cased),
        ScalarExpr::BitNot(e) => law_constant_ignores_row(f, s1, r1, s2, r2, *e, cased),
        ScalarExpr::Not(e) => law_constant_ignores_row(f, s1, r1, s2, r2, *e, cased),
        ScalarExpr::Collate { expr: e, .. } => law_constant_ignores_row(
            f,
            s1,
            r1,
            s2,
            r2,
            *e,
            cased,
        ),
        ScalarExpr::Cast { expr: e, .. } => law_constant_ignores_row(f, s1, r1, s2, r2, *e, cased),
        ScalarExpr::Is { left, right, .. } => {
            law_constant_ignores_row(f, s1, r1, s2, r2, *left, cased);
            law_constant_ignores_row(f, s1, r1, s2, r2, *right, cased);
        },
        ScalarExpr::Compare { left, right, .. } => {
            law_constant_ignores_row(f, s1, r1, s2, r2, *left, cased);
            law_constant_ignores_row(f, s1, r1, s2, r2, *right, cased);
        },
        ScalarExpr::IsBool { expr: e, .. } => law_constant_ignores_row(
            f,
            s1,
            r1,
            s2,
            r2,
            *e,
            cased,
        ),
        ScalarExpr::Glob { expr: e, pattern, .. } => {
            law_constant_ignores_row(f, s1, r1, s2, r2, *e, cased);
            law_constant_ignores_row(f, s1, r1, s2, r2, *pattern, cased);
        },
        ScalarExpr::Like { expr: e, pattern, escape, .. } => {
            law_constant_ignores_row(f, s1, r1, s2, r2, *e, cased);
            law_constant_ignores_row(f, s1, r1, s2, r2, *pattern, cased);
            match escape {
                Some(x) => law_constant_ignores_row(f, s1, r1, s2, r2, *x, cased),
                None => {},
            }
        },
        ScalarExpr::InList { expr: e, values, .. } => {
            law_constant_ignores_row(f, s1, r1, s2, r2, *e, cased);
            lemma_constants_ignore_row(f, s1, r1, s2, r2, values@, 0, cased, Seq::empty());
        },
        ScalarExpr::Between { expr: e, low, high, .. } => {
            law_constant_ignores_row(f, s1, r1, s2, r2, *e, cased);
            law_constant_ignores_row(f, s1, r1, s2, r2, *low, cased);
            law_constant_ignores_row(f, s1, r1, s2, r2, *high, cased);
        },
        ScalarExpr::Case { base, when_then_clauses, else_expr } => {
            let base_value = match base {
                Some(x) => {
                    law_constant_ignores_row(f, s1, r1, s2, r2, *x, cased);
                    match evaluated(f, s1, r1, *x, cased) {
                        Ok(v) => Some(v),
                        Err(_) => None,
                    }
                },
                None => None,
            };
            lemma_cases_ignore_row(f, s1, r1, s2, r2, base_value, when_then_clauses@, 0, cased);
            match else_expr {
                Some(x) => law_constant_ignores_row(f, s1, r1, s2, r2, *x, cased),
                None => {},
            }
        },
        ScalarExpr::Binary { left, right, .. } => {
            law_constant_ignores_row(f, s1, r1, s2, r2, *left, cased);
            law_constant_ignores_row(f, s1, r1, s2, r2, *right, cased);
        },
        ScalarExpr::Function { args, .. } => {
            lemma_constants_ignore_row(f, s1, r1, s2, r2, args@, 0, cased, Seq::empty());
            lemma_choice_ignores_row(f, s1, r1, s2, r2, args@, 0, cased);
        },
        _ => {},
    }
}

/// The value of an expression that depends on nothing, if it has one. A question about reals
/// is handed on.
pub open spec fn constant_value(
    f: Facts,
    schema: Schema,
    row: Seq<SqlValue>,
    expr: ScalarExpr,
) -> Result<Option<SqlValue>, StopView> {
    if !is_constant(expr) || is_current(expr) {
        Ok(None)
    } else {
        match evaluated(f, schema, row, expr, false) {
            Ok(v) => Ok(Some(v)),
            Err(StopView::Fail(_)) => Ok(None),
            Err(s) => Err(s),
        }
    }
}

/// The value of an expression that depends on nothing, if it has one: the value that it has
/// in any row of any table.
pub fn evaluate_constant_expr(facts: &RealFacts, expr: &ScalarExpr) -> (r: Eval<Option<DbValue>>)
    ensures
        forall|schema: Schema, row: Seq<SqlValue>| #[trigger]
            constant_value(facts@, schema, row, *expr) == maybe_value(r),
{
    if !is_constant_scalar_expr(expr) || contains_current_time_scalar_expr(expr) {
        return Ok(None);
    }
    let schema = Schema::new("__constant__", Vec::new());
    let row: Vec<DbValue> = Vec::new();
    proof {
        assert forall|other: Schema, other_row: Seq<SqlValue>|
            evaluated(facts@, schema, row.deep_view(), *expr, false) == #[trigger] evaluated(
                facts@,
                other,
                other_row,
                *expr,
                false,
            ) by {
            law_constant_ignores_row(
                facts@,
                schema,
                row.deep_view(),
                other,
                other_row,
                *expr,
                false,
            );
        }
    }
    match evaluate_scalar_expr_with_like_mode(facts, &schema, &row, expr, false) {
        Ok(v) => Ok(Some(v)),
        Err(Stop::Fail(_)) => Ok(None),
        Err(s) => Err(s),
    }
}

/// The value of a term of an index in a row: of the column with that name, or else of the
/// expression that the term was read as.
pub open spec fn term_value(
    f: Facts,
    schema: Schema,
    row: Seq<SqlValue>,
    term: Seq<char>,
    expr: ScalarExpr,
    cased: bool,
) -> Result<SqlValue, StopView> {
    if schema.position(term) is Some {
        column_value(schema, row, term)
    } else {
        evaluated(f, schema, row, expr, cased)
    }
}

/// The value of a term of an index in a row. `expr` is what the term reads as an expression.
pub fn evaluate_index_term_with_like_mode(
    facts: &RealFacts,
    schema: &Schema,
    row: &Vec<DbValue>,
    term: &str,
    expr: &ScalarExpr,
    cased: bool,
) -> (r: Eval<DbValue>)
    ensures
        stop_view(r) == term_value(facts@, *schema, row.deep_view(), term@, *expr, cased),
{
    if schema.column_index(term).is_some() {
        read_column(schema, row, term)
    } else {
        evaluate_scalar_expr_with_like_mode(facts, schema, row, expr, cased)
    }
}

/// The value of a term of an index in a row, where `LIKE` does not tell upper from lower
/// case.
pub fn evaluate_index_term(
    facts: &RealFacts,
    schema: &Schema,
    row: &Vec<DbValue>,
    term: &str,
    expr: &ScalarExpr,
) -> (r: Eval<DbValue>)
    ensures
        stop_view(r) == term_value(facts@, *schema, row.deep_view(), term@, *expr, false),
{
    evaluate_index_term_with_like_mode(facts, schema, row, term, expr, false)
}

/// Whether a term can stand in an index of a table: a column, or an expression over columns.
pub open spec fn term_valid(schema: Schema, term: Seq<char>, expr: ScalarExpr) -> Result<
    (),
    crate::common::error::ErrorView,
> {
    if schema.position(term) is Some {
        Ok(())
    } else {
        required(schema, expr)
    }
}

/// Checks that a term can stand in an index of a table. `expr` is what the term reads as an
/// expression.
pub fn validate_index_term(schema: &Schema, term: &str, expr: &ScalarExpr) -> (r:
    crate::common::error::DbResult<()>)
    ensures
        check_view(r) == term_valid(*schema, term@, *expr),
{
    if schema.column_index(term).is_some() {
        return Ok(());
    }
    require_scalar_expr_columns(schema, expr)
}

} // verus!
