//! Expressions over the columns of a row.

use vstd::prelude::*;

use crate::common::error::{about, DbError, DbResult, ErrorCode, ErrorView};
use crate::common::schema::{ColumnType, Schema};
use crate::common::value::{CompareOp, DbValue};
use crate::sqlite3::arithmetic::ScalarBinaryOp;
use crate::sqlite3::functions::ScalarFunc;
use crate::sqlite3::strings::{same_but_case, same_letters};

verus! {

/// An expression.
#[derive(Debug)]
#[allow(inconsistent_fields)]
pub enum ScalarExpr {
    Literal(DbValue),
    Tuple(Vec<ScalarExpr>),
    Column(String),
    UnaryPlus(Box<ScalarExpr>),
    UnaryMinus(Box<ScalarExpr>),
    BitNot(Box<ScalarExpr>),
    Not(Box<ScalarExpr>),
    Collate { expr: Box<ScalarExpr>, collation: String },
    Cast { expr: Box<ScalarExpr>, ty: ColumnType },
    Is { left: Box<ScalarExpr>, right: Box<ScalarExpr>, negated: bool },
    IsBool { expr: Box<ScalarExpr>, value: bool, negated: bool },
    InList { expr: Box<ScalarExpr>, values: Vec<ScalarExpr>, negated: bool },
    InSubquery { expr: Box<ScalarExpr>, query: String, negated: bool },
    Subquery { query: String },
    CompareSubquery { left: Box<ScalarExpr>, op: CompareOp, query: String },
    WindowFunction { call: String },
    Like {
        expr: Box<ScalarExpr>,
        pattern: Box<ScalarExpr>,
        escape: Option<Box<ScalarExpr>>,
        negated: bool,
    },
    Glob { expr: Box<ScalarExpr>, pattern: Box<ScalarExpr>, negated: bool },
    Between {
        expr: Box<ScalarExpr>,
        low: Box<ScalarExpr>,
        high: Box<ScalarExpr>,
        negated: bool,
    },
    Compare { left: Box<ScalarExpr>, op: CompareOp, right: Box<ScalarExpr> },
    Case {
        base: Option<Box<ScalarExpr>>,
        when_then_clauses: Vec<(ScalarExpr, ScalarExpr)>,
        else_expr: Option<Box<ScalarExpr>>,
    },
    Binary { left: Box<ScalarExpr>, op: ScalarBinaryOp, right: Box<ScalarExpr> },
    Function { func: ScalarFunc, args: Vec<ScalarExpr> },
    Aggregate { call: String },
}

// ---------------------------------------------------------------------------
// Columns that an expression needs

/// The text that says that a table has no such column.
pub open spec fn unknown_column(table: Seq<char>, name: Seq<char>) -> Seq<char> {
    "unknown column "@ + name + " on table "@ + table
}

/// Says that a table has no such column.
pub fn unknown_column_text(table: &str, name: &str) -> (r: String)
    ensures
        r@ == unknown_column(table@, name@),
{
    let mut out = "unknown column ".to_owned();
    out.append(name);
    out.append(" on table ");
    out.append(table);
    out
}

/// The failure that an expression holds a subquery.
pub open spec fn subquery_error() -> ErrorView {
    about(ErrorCode::Plan, "subqueries are not allowed in index expressions"@)
}

/// The failure that an expression holds an aggregate.
pub open spec fn aggregate_error() -> ErrorView {
    about(ErrorCode::Plan, "aggregate functions are not allowed in index expressions"@)
}

/// The first of two checks that fails.
pub open spec fn both(a: Result<(), ErrorView>, b: Result<(), ErrorView>) -> Result<(), ErrorView> {
    match a {
        Err(e) => Err(e),
        Ok(_) => b,
    }
}

/// The model of a check.
pub open spec fn check_view(r: DbResult<()>) -> Result<(), ErrorView> {
    match r {
        Ok(_) => Ok(()),
        Err(e) => Err(e@),
    }
}

/// Whether a table has the columns that expressions from a position on name.
pub open spec fn all_required(schema: Schema, items: Seq<ScalarExpr>, i: int) -> Result<
    (),
    ErrorView,
>
    decreases items, items.len() - i,
{
    if i < 0 || i >= items.len() {
        Ok(())
    } else {
        both(required(schema, items[i]), all_required(schema, items, i + 1))
    }
}

/// Whether a table has the columns that the branches of a case from a position on name.
pub open spec fn cases_required(schema: Schema, items: Seq<(ScalarExpr, ScalarExpr)>, i: int) -> Result<
    (),
    ErrorView,
>
    decreases items, items.len() - i,
{
    if i < 0 || i >= items.len() {
        Ok(())
    } else {
        both(
            required(schema, items[i].0),
            both(required(schema, items[i].1), cases_required(schema, items, i + 1)),
        )
    }
}

/// Whether a table has the columns that an expression names, and the expression can stand in
/// an index.
pub open spec fn required(schema: Schema, expr: ScalarExpr) -> Result<(), ErrorView>
    decreases expr, 0int,
{
    match expr {
        ScalarExpr::Literal(_) => Ok(()),
        ScalarExpr::Tuple(items) => all_required(schema, items@, 0),
        ScalarExpr::Column(name) => if schema.position(name@) is Some {
            Ok(())
        } else {
            Err(about(ErrorCode::Storage, unknown_column(schema.name@, name@)))
        },
        ScalarExpr::UnaryPlus(e) => required(schema, *e),
        ScalarExpr::UnaryMinus(e) => required(schema, *e),
        ScalarExpr::BitNot(e) => required(schema, *e),
        ScalarExpr::Not(e) => required(schema, *e),
        ScalarExpr::Collate { expr: e, .. } => required(schema, *e),
        ScalarExpr::Cast { expr: e, .. } => required(schema, *e),
        ScalarExpr::Is { left, right, .. } => both(
            required(schema, *left),
            required(schema, *right),
        ),
        ScalarExpr::Compare { left, right, .. } => both(
            required(schema, *left),
            required(schema, *right),
        ),
        ScalarExpr::IsBool { expr: e, .. } => required(schema, *e),
        ScalarExpr::Glob { expr: e, pattern, .. } => both(
            required(schema, *e),
            required(schema, *pattern),
        ),
        ScalarExpr::Like { expr: e, pattern, escape, .. } => both(
            required(schema, *e),
            both(
                required(schema, *pattern),
                match escape {
                    Some(x) => required(schema, *x),
                    None => Ok(()),
                },
            ),
        ),
        ScalarExpr::InList { expr: e, values, .. } => both(
            required(schema, *e),
            all_required(schema, values@, 0),
        ),
        ScalarExpr::InSubquery { .. } => Err(subquery_error()),
        ScalarExpr::Subquery { .. } => Err(subquery_error()),
        ScalarExpr::CompareSubquery { .. } => Err(subquery_error()),
        ScalarExpr::WindowFunction { .. } => Err(subquery_error()),
        ScalarExpr::Between { expr: e, low, high, .. } => both(
            required(schema, *e),
            both(required(schema, *low), required(schema, *high)),
        ),
        ScalarExpr::Case { base, when_then_clauses, else_expr } => both(
            match base {
                Some(x) => required(schema, *x),
                None => Ok(()),
            },
            both(
                cases_required(schema, when_then_clauses@, 0),
                match else_expr {
                    Some(x) => required(schema, *x),
                    None => Ok(()),
                },
            ),
        ),
        ScalarExpr::Binary { left, right, .. } => both(
            required(schema, *left),
            required(schema, *right),
        ),
        ScalarExpr::Function { args, .. } => all_required(schema, args@, 0),
        ScalarExpr::Aggregate { .. } => Err(aggregate_error()),
    }
}

fn require_all(schema: &Schema, items: &Vec<ScalarExpr>) -> (r: DbResult<()>)
    ensures
        check_view(r) == all_required(*schema, items@, 0),
    decreases items,
{
    let mut i: usize = 0;
    while i < items.len()
        invariant
            i <= items@.len(),
            all_required(*schema, items@, i as int) == all_required(*schema, items@, 0),
        decreases items@.len() - i,
    {
        assert(decreases_to!(items => items@[i as int]));
        require_scalar_expr_columns(schema, &items[i])?;
        i = i + 1;
    }
    Ok(())
}

fn require_cases(schema: &Schema, items: &Vec<(ScalarExpr, ScalarExpr)>) -> (r: DbResult<()>)
    ensures
        check_view(r) == cases_required(*schema, items@, 0),
    decreases items,
{
    let mut i: usize = 0;
    while i < items.len()
        invariant
            i <= items@.len(),
            cases_required(*schema, items@, i as int) == cases_required(*schema, items@, 0),
        decreases items@.len() - i,
    {
        assert(decreases_to!(items => items@[i as int].0));
        assert(decreases_to!(items => items@[i as int].1));
        require_scalar_expr_columns(schema, &items[i].0)?;
        require_scalar_expr_columns(schema, &items[i].1)?;
        i = i + 1;
    }
    Ok(())
}

/// Checks that a table has the columns that an expression names, and that the expression can
/// stand in an index.
pub fn require_scalar_expr_columns(schema: &Schema, expr: &ScalarExpr) -> (r: DbResult<()>)
    ensures
        check_view(r) == required(*schema, *expr),
    decreases expr,
{
    match expr {
        ScalarExpr::Literal(_) => Ok(()),
        ScalarExpr::Tuple(items) => require_all(schema, items),
        ScalarExpr::Column(name) => {
            if schema.column_index(name.as_str()).is_some() {
                Ok(())
            } else {
                let text = unknown_column_text(schema.name.as_str(), name.as_str());
                Err(DbError::about(ErrorCode::Storage, text.as_str()))
            }
        },
        ScalarExpr::UnaryPlus(e) => require_scalar_expr_columns(schema, e),
        ScalarExpr::UnaryMinus(e) => require_scalar_expr_columns(schema, e),
        ScalarExpr::BitNot(e) => require_scalar_expr_columns(schema, e),
        ScalarExpr::Not(e) => require_scalar_expr_columns(schema, e),
        ScalarExpr::Collate { expr: e, .. } => require_scalar_expr_columns(schema, e),
        ScalarExpr::Cast { expr: e, .. } => require_scalar_expr_columns(schema, e),
        ScalarExpr::Is { left, right, .. } => {
            require_scalar_expr_columns(schema, left)?;
            require_scalar_expr_columns(schema, right)
        },
        ScalarExpr::Compare { left, right, .. } => {
            require_scalar_expr_columns(schema, left)?;
            require_scalar_expr_columns(schema, right)
        },
        ScalarExpr::IsBool { expr: e, .. } => require_scalar_expr_columns(schema, e),
        ScalarExpr::Glob { expr: e, pattern, .. } => {
            require_scalar_expr_columns(schema, e)?;
            require_scalar_expr_columns(schema, pattern)
        },
        ScalarExpr::Like { expr: e, pattern, escape, .. } => {
            require_scalar_expr_columns(schema, e)?;
            require_scalar_expr_columns(schema, pattern)?;
            match escape {
                Some(x) => require_scalar_expr_columns(schema, x),
                None => Ok(()),
            }
        },
        ScalarExpr::InList { expr: e, values, .. } => {
            require_scalar_expr_columns(schema, e)?;
            require_all(schema, values)
        },
        ScalarExpr::InSubquery { .. } => Err(subquery_failure()),
        ScalarExpr::Subquery { .. } => Err(subquery_failure()),
        ScalarExpr::CompareSubquery { .. } => Err(subquery_failure()),
        ScalarExpr::WindowFunction { .. } => Err(subquery_failure()),
        ScalarExpr::Between { expr: e, low, high, .. } => {
            require_scalar_expr_columns(schema, e)?;
            require_scalar_expr_columns(schema, low)?;
            require_scalar_expr_columns(schema, high)
        },
        ScalarExpr::Case { base, when_then_clauses, else_expr } => {
            match base {
                Some(x) => {
                    require_scalar_expr_columns(schema, x)?;
                },
                None => {},
            }
            require_cases(schema, when_then_clauses)?;
            match else_expr {
                Some(x) => require_scalar_expr_columns(schema, x),
                None => Ok(()),
            }
        },
        ScalarExpr::Binary { left, right, .. } => {
            require_scalar_expr_columns(schema, left)?;
            require_scalar_expr_columns(schema, right)
        },
        ScalarExpr::Function { args, .. } => require_all(schema, args),
        ScalarExpr::Aggregate { .. } => Err(aggregate_failure()),
    }
}

/// The failure that an expression holds a subquery.
pub fn subquery_failure() -> (r: DbError)
    ensures
        r@ == subquery_error(),
{
    DbError::about(ErrorCode::Plan, "subqueries are not allowed in index expressions")
}

/// The failure that an expression holds an aggregate.
pub fn aggregate_failure() -> (r: DbError)
    ensures
        r@ == aggregate_error(),
{
    DbError::about(ErrorCode::Plan, "aggregate functions are not allowed in index expressions")
}

// ---------------------------------------------------------------------------
// Constant expressions

/// Whether a function gives the same result for the same arguments.
pub open spec fn is_deterministic(func: ScalarFunc) -> bool {
    match func {
        ScalarFunc::Changes => false,
        ScalarFunc::TotalChanges => false,
        ScalarFunc::Random => false,
        ScalarFunc::RandomBlob => false,
        ScalarFunc::SqliteSourceId => false,
        ScalarFunc::SqliteVersion => false,
        ScalarFunc::LastInsertRowId => false,
        _ => true,
    }
}

/// Whether a function gives the same result for the same arguments.
pub fn is_deterministic_constant_func(func: ScalarFunc) -> (r: bool)
    ensures
        r == is_deterministic(func),
{
    match func {
        ScalarFunc::Changes => false,
        ScalarFunc::TotalChanges => false,
        ScalarFunc::Random => false,
        ScalarFunc::RandomBlob => false,
        ScalarFunc::SqliteSourceId => false,
        ScalarFunc::SqliteVersion => false,
        ScalarFunc::LastInsertRowId => false,
        _ => true,
    }
}

/// Whether expressions from a position on are all constant.
pub open spec fn all_constant(items: Seq<ScalarExpr>, i: int) -> bool
    decreases items, items.len() - i,
{
    if i < 0 || i >= items.len() {
        true
    } else {
        is_constant(items[i]) && all_constant(items, i + 1)
    }
}

/// Whether the branches of a case from a position on are all constant.
pub open spec fn cases_constant(items: Seq<(ScalarExpr, ScalarExpr)>, i: int) -> bool
    decreases items, items.len() - i,
{
    if i < 0 || i >= items.len() {
        true
    } else {
        is_constant(items[i].0) && is_constant(items[i].1) && cases_constant(items, i + 1)
    }
}

/// Whether an expression names no column and depends on nothing but itself.
pub open spec fn is_constant(expr: ScalarExpr) -> bool
    decreases expr, 0int,
{
    match expr {
        ScalarExpr::Literal(_) => true,
        ScalarExpr::Tuple(items) => all_constant(items@, 0),
        ScalarExpr::Column(_) => false,
        ScalarExpr::UnaryPlus(e) => is_constant(*e),
        ScalarExpr::UnaryMinus(e) => is_constant(*e),
        ScalarExpr::BitNot(e) => is_constant(*e),
        ScalarExpr::Not(e) => is_constant(*e),
        ScalarExpr::Collate { expr: e, .. } => is_constant(*e),
        ScalarExpr::Cast { expr: e, .. } => is_constant(*e),
        ScalarExpr::Is { left, right, .. } => is_constant(*left) && is_constant(*right),
        ScalarExpr::Compare { left, right, .. } => is_constant(*left) && is_constant(*right),
        ScalarExpr::IsBool { expr: e, .. } => is_constant(*e),
        ScalarExpr::Glob { expr: e, pattern, .. } => is_constant(*e) && is_constant(*pattern),
        ScalarExpr::Like { expr: e, pattern, escape, .. } => is_constant(*e) && is_constant(
            *pattern,
        ) && match escape {
            Some(x) => is_constant(*x),
            None => true,
        },
        ScalarExpr::InList { expr: e, values, .. } => is_constant(*e) && all_constant(values@, 0),
        ScalarExpr::InSubquery { .. } => false,
        ScalarExpr::Subquery { .. } => false,
        ScalarExpr::CompareSubquery { .. } => false,
        ScalarExpr::WindowFunction { .. } => false,
        ScalarExpr::Between { expr: e, low, high, .. } => is_constant(*e) && is_constant(*low)
            && is_constant(*high),
        ScalarExpr::Case { base, when_then_clauses, else_expr } => (match base {
            Some(x) => is_constant(*x),
            None => true,
        }) && cases_constant(when_then_clauses@, 0) && match else_expr {
            Some(x) => is_constant(*x),
            None => true,
        },
        ScalarExpr::Binary { left, right, .. } => is_constant(*left) && is_constant(*right),
        ScalarExpr::Function { func, args } => is_deterministic(func) && all_constant(args@, 0),
        ScalarExpr::Aggregate { .. } => false,
    }
}

fn check_all_constant(items: &Vec<ScalarExpr>) -> (r: bool)
    ensures
        r == all_constant(items@, 0),
    decreases items,
{
    let mut i: usize = 0;
    while i < items.len()
        invariant
            i <= items@.len(),
            all_constant(items@, i as int) == all_constant(items@, 0),
        decreases items@.len() - i,
    {
        assert(decreases_to!(items => items@[i as int]));
        if !is_constant_scalar_expr(&items[i]) {
            return false;
        }
        i = i + 1;
    }
    true
}

fn check_cases_constant(items: &Vec<(ScalarExpr, ScalarExpr)>) -> (r: bool)
    ensures
        r == cases_constant(items@, 0),
    decreases items,
{
    let mut i: usize = 0;
    while i < items.len()
        invariant
            i <= items@.len(),
            cases_constant(items@, i as int) == cases_constant(items@, 0),
        decreases items@.len() - i,
    {
        assert(decreases_to!(items => items@[i as int].0));
        assert(decreases_to!(items => items@[i as int].1));
        if !is_constant_scalar_expr(&items[i].0) || !is_constant_scalar_expr(&items[i].1) {
            return false;
        }
        i = i + 1;
    }
    true
}

/// Whether an expression names no column and depends on nothing but itself.
pub fn is_constant_scalar_expr(expr: &ScalarExpr) -> (r: bool)
    ensures
        r == is_constant(*expr),
    decreases expr,
{
    match expr {
        ScalarExpr::Literal(_) => true,
        ScalarExpr::Tuple(items) => check_all_constant(items),
        ScalarExpr::Column(_) => false,
        ScalarExpr::UnaryPlus(e) => is_constant_scalar_expr(e),
        ScalarExpr::UnaryMinus(e) => is_constant_scalar_expr(e),
        ScalarExpr::BitNot(e) => is_constant_scalar_expr(e),
        ScalarExpr::Not(e) => is_constant_scalar_expr(e),
        ScalarExpr::Collate { expr: e, .. } => is_constant_scalar_expr(e),
        ScalarExpr::Cast { expr: e, .. } => is_constant_scalar_expr(e),
        ScalarExpr::Is { left, right, .. } => is_constant_scalar_expr(left)
            && is_constant_scalar_expr(right),
        ScalarExpr::Compare { left, right, .. } => is_constant_scalar_expr(left)
            && is_constant_scalar_expr(right),
        ScalarExpr::IsBool { expr: e, .. } => is_constant_scalar_expr(e),
        ScalarExpr::Glob { expr: e, pattern, .. } => is_constant_scalar_expr(e)
            && is_constant_scalar_expr(pattern),
        ScalarExpr::Like { expr: e, pattern, escape, .. } => is_constant_scalar_expr(e)
            && is_constant_scalar_expr(pattern) && match escape {
            Some(x) => is_constant_scalar_expr(x),
            None => true,
        },
        ScalarExpr::InList { expr: e, values, .. } => is_constant_scalar_expr(e)
            && check_all_constant(values),
        ScalarExpr::InSubquery { .. } => false,
        ScalarExpr::Subquery { .. } => false,
        ScalarExpr::CompareSubquery { .. } => false,
        ScalarExpr::WindowFunction { .. } => false,
        ScalarExpr::Between { expr: e, low, high, .. } => is_constant_scalar_expr(e)
            && is_constant_scalar_expr(low) && is_constant_scalar_expr(high),
        ScalarExpr::Case { base, when_then_clauses, else_expr } => (match base {
            Some(x) => is_constant_scalar_expr(x),
            None => true,
        }) && check_cases_constant(when_then_clauses) && match else_expr {
            Some(x) => is_constant_scalar_expr(x),
            None => true,
        },
        ScalarExpr::Binary { left, right, .. } => is_constant_scalar_expr(left)
            && is_constant_scalar_expr(right),
        ScalarExpr::Function { func, args } => is_deterministic_constant_func(*func)
            && check_all_constant(args),
        ScalarExpr::Aggregate { .. } => false,
    }
}

// ---------------------------------------------------------------------------
// Expressions that ask for the present moment

/// Whether a function shows a moment.
pub open spec fn shows_moment(func: ScalarFunc) -> bool {
    match func {
        ScalarFunc::Date => true,
        ScalarFunc::Time => true,
        ScalarFunc::DateTime => true,
        ScalarFunc::Strftime => true,
        ScalarFunc::JulianDay => true,
        ScalarFunc::UnixEpoch => true,
        _ => false,
    }
}

/// Whether the first argument is the text for the present moment.
pub open spec fn starts_now(args: Seq<ScalarExpr>) -> bool {
    args.len() > 0 && match args[0] {
        ScalarExpr::Literal(DbValue::Text(t)) => same_letters(t@, "now"@),
        _ => false,
    }
}

/// Whether one of the expressions from a position on asks for the present moment.
pub open spec fn any_current(items: Seq<ScalarExpr>, i: int) -> bool
    decreases items, items.len() - i,
{
    if i < 0 || i >= items.len() {
        false
    } else {
        is_current(items[i]) || any_current(items, i + 1)
    }
}

/// Whether one of the branches of a case from a position on asks for the present moment.
pub open spec fn cases_current(items: Seq<(ScalarExpr, ScalarExpr)>, i: int) -> bool
    decreases items, items.len() - i,
{
    if i < 0 || i >= items.len() {
        false
    } else {
        is_current(items[i].0) || is_current(items[i].1) || cases_current(items, i + 1)
    }
}

/// Whether an expression asks for the present moment.
pub open spec fn is_current(expr: ScalarExpr) -> bool
    decreases expr, 0int,
{
    match expr {
        ScalarExpr::Literal(_) => false,
        ScalarExpr::Column(_) => false,
        ScalarExpr::Tuple(items) => any_current(items@, 0),
        ScalarExpr::UnaryPlus(e) => is_current(*e),
        ScalarExpr::UnaryMinus(e) => is_current(*e),
        ScalarExpr::BitNot(e) => is_current(*e),
        ScalarExpr::Not(e) => is_current(*e),
        ScalarExpr::Collate { expr: e, .. } => is_current(*e),
        ScalarExpr::Cast { expr: e, .. } => is_current(*e),
        ScalarExpr::Is { left, right, .. } => is_current(*left) || is_current(*right),
        ScalarExpr::Compare { left, right, .. } => is_current(*left) || is_current(*right),
        ScalarExpr::IsBool { expr: e, .. } => is_current(*e),
        ScalarExpr::Glob { expr: e, pattern, .. } => is_current(*e) || is_current(*pattern),
        ScalarExpr::Like { expr: e, pattern, escape, .. } => is_current(*e) || is_current(*pattern)
            || match escape {
            Some(x) => is_current(*x),
            None => false,
        },
        ScalarExpr::InList { expr: e, values, .. } => is_current(*e) || any_current(values@, 0),
        ScalarExpr::InSubquery { expr: e, .. } => is_current(*e),
        ScalarExpr::CompareSubquery { left: e, .. } => is_current(*e),
        ScalarExpr::Subquery { .. } => false,
        ScalarExpr::WindowFunction { .. } => false,
        ScalarExpr::Between { expr: e, low, high, .. } => is_current(*e) || is_current(*low)
            || is_current(*high),
        ScalarExpr::Case { base, when_then_clauses, else_expr } => (match base {
            Some(x) => is_current(*x),
            None => false,
        }) || cases_current(when_then_clauses@, 0) || match else_expr {
            Some(x) => is_current(*x),
            None => false,
        },
        ScalarExpr::Binary { left, right, .. } => is_current(*left) || is_current(*right),
        ScalarExpr::Function { func, args } => (shows_moment(func) && starts_now(args@))
            || any_current(args@, 0),
        ScalarExpr::Aggregate { .. } => false,
    }
}

fn check_starts_now(args: &Vec<ScalarExpr>) -> (r: bool)
    ensures
        r == starts_now(args@),
{
    if args.len() == 0 {
        return false;
    }
    match &args[0] {
        ScalarExpr::Literal(DbValue::Text(t)) => same_but_case(t.as_str(), "now"),
        _ => false,
    }
}

fn check_shows_moment(func: ScalarFunc) -> (r: bool)
    ensures
        r == shows_moment(func),
{
    match func {
        ScalarFunc::Date => true,
        ScalarFunc::Time => true,
        ScalarFunc::DateTime => true,
        ScalarFunc::Strftime => true,
        ScalarFunc::JulianDay => true,
        ScalarFunc::UnixEpoch => true,
        _ => false,
    }
}

fn check_any_current(items: &Vec<ScalarExpr>) -> (r: bool)
    ensures
        r == any_current(items@, 0),
    decreases items,
{
    let mut i: usize = 0;
    while i < items.len()
        invariant
            i <= items@.len(),
            any_current(items@, i as int) == any_current(items@, 0),
        decreases items@.len() - i,
    {
        assert(decreases_to!(items => items@[i as int]));
        if contains_current_time_scalar_expr(&items[i]) {
            return true;
        }
        i = i + 1;
    }
    false
}

fn check_cases_current(items: &Vec<(ScalarExpr, ScalarExpr)>) -> (r: bool)
    ensures
        r == cases_current(items@, 0),
    decreases items,
{
    let mut i: usize = 0;
    while i < items.len()
        invariant
            i <= items@.len(),
            cases_current(items@, i as int) == cases_current(items@, 0),
        decreases items@.len() - i,
    {
        assert(decreases_to!(items => items@[i as int].0));
        assert(decreases_to!(items => items@[i as int].1));
        if contains_current_time_scalar_expr(&items[i].0) || contains_current_time_scalar_expr(
            &items[i].1,
        ) {
            return true;
        }
        i = i + 1;
    }
    false
}

/// Whether an expression asks for the present moment.
pub fn contains_current_time_scalar_expr(expr: &ScalarExpr) -> (r: bool)
    ensures
        r == is_current(*expr),
    decreases expr,
{
    match expr {
        ScalarExpr::Literal(_) => false,
        ScalarExpr::Column(_) => false,
        ScalarExpr::Tuple(items) => check_any_current(items),
        ScalarExpr::UnaryPlus(e) => contains_current_time_scalar_expr(e),
        ScalarExpr::UnaryMinus(e) => contains_current_time_scalar_expr(e),
        ScalarExpr::BitNot(e) => contains_current_time_scalar_expr(e),
        ScalarExpr::Not(e) => contains_current_time_scalar_expr(e),
        ScalarExpr::Collate { expr: e, .. } => contains_current_time_scalar_expr(e),
        ScalarExpr::Cast { expr: e, .. } => contains_current_time_scalar_expr(e),
        ScalarExpr::Is { left, right, .. } => contains_current_time_scalar_expr(left)
            || contains_current_time_scalar_expr(right),
        ScalarExpr::Compare { left, right, .. } => contains_current_time_scalar_expr(left)
            || contains_current_time_scalar_expr(right),
        ScalarExpr::IsBool { expr: e, .. } => contains_current_time_scalar_expr(e),
        ScalarExpr::Glob { expr: e, pattern, .. } => contains_current_time_scalar_expr(e)
            || contains_current_time_scalar_expr(pattern),
        ScalarExpr::Like { expr: e, pattern, escape, .. } => contains_current_time_scalar_expr(e)
            || contains_current_time_scalar_expr(pattern) || match escape {
            Some(x) => contains_current_time_scalar_expr(x),
            None => false,
        },
        ScalarExpr::InList { expr: e, values, .. } => contains_current_time_scalar_expr(e)
            || check_any_current(values),
        ScalarExpr::InSubquery { expr: e, .. } => contains_current_time_scalar_expr(e),
        ScalarExpr::CompareSubquery { left: e, .. } => contains_current_time_scalar_expr(e),
        ScalarExpr::Subquery { .. } => false,
        ScalarExpr::WindowFunction { .. } => false,
        ScalarExpr::Between { expr: e, low, high, .. } => contains_current_time_scalar_expr(e)
            || contains_current_time_scalar_expr(low) || contains_current_time_scalar_expr(high),
        ScalarExpr::Case { base, when_then_clauses, else_expr } => (match base {
            Some(x) => contains_current_time_scalar_expr(x),
            None => false,
        }) || check_cases_current(when_then_clauses) || match else_expr {
            Some(x) => contains_current_time_scalar_expr(x),
            None => false,
        },
        ScalarExpr::Binary { left, right, .. } => contains_current_time_scalar_expr(left)
            || contains_current_time_scalar_expr(right),
        ScalarExpr::Function { func, args } => (check_shows_moment(*func) && check_starts_now(args))
            || check_any_current(args),
        ScalarExpr::Aggregate { .. } => false,
    }
}

} // verus!
