//! What comparisons, choices and lists in expressions give, in terms of what their parts give.

use vstd::prelude::*;

use crate::common::column_laws::{law_columns_are_found_by_name, reads, stands_at};
use crate::common::ordmap::Order;
use crate::common::schema::{ColumnType, Schema};
use crate::common::text::int_text;
use crate::common::value::{CompareOp, SqlValue};
use crate::sqlite3::arithmetic::{best_from, listed_from, null_from, ScalarBinaryOp};
use crate::sqlite3::expr::ScalarExpr;
use crate::sqlite3::functions::{applied, arity_check, first_known, ScalarFunc};
use crate::sqlite3::index_expr::{case_from, chosen_from, evaluated, evaluated_from};
use crate::sqlite3::operator_laws::{comparing, gives, operation};
use crate::sqlite3::reals::{is_finite, real_below, real_same, Facts, StopView};
use crate::sqlite3::values::{bytes_before, cast, compared, value_order};
use crate::v2::comparison_laws::{law_texts_are_ordered_by_their_first_difference, smaller_text};

verus! {

/// Whether an expression gives a truth value in a row.
pub open spec fn says(
    f: Facts,
    schema: Schema,
    row: Seq<SqlValue>,
    expr: ScalarExpr,
    cased: bool,
    b: bool,
) -> bool {
    gives(f, schema, row, expr, cased, SqlValue::Boolean(b))
}

/// Whether a function gives a value for arguments.
pub open spec fn answers(
    f: Facts,
    func: ScalarFunc,
    args: Seq<SqlValue>,
    cased: bool,
    v: SqlValue,
) -> bool {
    applied(f, func, args, cased) == Ok::<_, StopView>(v)
}

// ---------------------------------------------------------------------------
// Columns

/// The name of a column gives what the row has under it, and nothing where it has nothing there.
/// A sign of plus and a collation leave a value as it is.
pub proof fn law_columns_give_what_a_row_has(
    f: Facts,
    schema: Schema,
    row: Seq<SqlValue>,
    cased: bool,
    name: String,
    a: ScalarExpr,
    collation: String,
    v: SqlValue,
)
    ensures
        gives(f, schema, row, ScalarExpr::Column(name), cased, v) <==> reads(schema, row, name@, v),
        gives(f, schema, row, ScalarExpr::UnaryPlus(Box::new(a)), cased, v) <==> gives(
            f,
            schema,
            row,
            a,
            cased,
            v,
        ),
        gives(
            f,
            schema,
            row,
            ScalarExpr::Collate { expr: Box::new(a), collation },
            cased,
            v,
        ) <==> gives(f, schema, row, a, cased, v),
{
    match schema.position(name@) {
        Some(k) => {
            law_columns_are_found_by_name(schema, name@, k);
            assert(stands_at(schema, name@, k));
        },
        None => {
            law_columns_are_found_by_name(schema, name@, 0);
        },
    }
    if reads(schema, row, name@, v) {
        let k = choose|k: int| #[trigger]
            stands_at(schema, name@, k) && k < row.len() && row[k] == v;
        law_columns_are_found_by_name(schema, name@, k);
    }
}

// ---------------------------------------------------------------------------
// Comparisons

/// Integers are compared as numbers.
pub proof fn law_integers_are_compared(
    f: Facts,
    schema: Schema,
    row: Seq<SqlValue>,
    cased: bool,
    a: ScalarExpr,
    b: ScalarExpr,
    i: i64,
    j: i64,
)
    requires
        gives(f, schema, row, a, cased, SqlValue::Integer(i)),
        gives(f, schema, row, b, cased, SqlValue::Integer(j)),
    ensures
        says(f, schema, row, comparing(a, CompareOp::Lt, b), cased, i < j),
        says(f, schema, row, comparing(a, CompareOp::Lte, b), cased, i <= j),
        says(f, schema, row, comparing(a, CompareOp::Gt, b), cased, i > j),
        says(f, schema, row, comparing(a, CompareOp::Gte, b), cased, i >= j),
        says(f, schema, row, comparing(a, CompareOp::Eq, b), cased, i == j),
        says(f, schema, row, comparing(a, CompareOp::Ne, b), cased, i != j),
{
}

/// Reals are compared as numbers, where they are numbers and not both zero.
pub proof fn law_reals_are_compared(
    f: Facts,
    schema: Schema,
    row: Seq<SqlValue>,
    cased: bool,
    a: ScalarExpr,
    b: ScalarExpr,
    x: u64,
    y: u64,
)
    requires
        gives(f, schema, row, a, cased, SqlValue::Real(x)),
        gives(f, schema, row, b, cased, SqlValue::Real(y)),
        is_finite(x),
        is_finite(y),
        real_same(x, y) ==> x == y,
    ensures
        says(f, schema, row, comparing(a, CompareOp::Lt, b), cased, real_below(x, y)),
        says(f, schema, row, comparing(a, CompareOp::Gt, b), cased, real_below(y, x)),
        says(f, schema, row, comparing(a, CompareOp::Eq, b), cased, x == y),
        says(f, schema, row, comparing(a, CompareOp::Lte, b), cased, !real_below(y, x)),
        says(f, schema, row, comparing(a, CompareOp::Gte, b), cased, !real_below(x, y)),
        says(f, schema, row, comparing(a, CompareOp::Ne, b), cased, x != y),
{
}

/// Texts are compared by the first characters in which they differ.
pub proof fn law_texts_are_compared(
    f: Facts,
    schema: Schema,
    row: Seq<SqlValue>,
    cased: bool,
    a: ScalarExpr,
    b: ScalarExpr,
    x: Seq<char>,
    y: Seq<char>,
)
    requires
        gives(f, schema, row, a, cased, SqlValue::Text(x)),
        gives(f, schema, row, b, cased, SqlValue::Text(y)),
    ensures
        says(f, schema, row, comparing(a, CompareOp::Lt, b), cased, smaller_text(x, y)),
        says(f, schema, row, comparing(a, CompareOp::Gt, b), cased, smaller_text(y, x)),
        says(f, schema, row, comparing(a, CompareOp::Eq, b), cased, x == y),
        says(f, schema, row, comparing(a, CompareOp::Lte, b), cased, !smaller_text(y, x)),
        says(f, schema, row, comparing(a, CompareOp::Gte, b), cased, !smaller_text(x, y)),
        says(f, schema, row, comparing(a, CompareOp::Ne, b), cased, x != y),
{
    law_texts_are_ordered_by_their_first_difference(x, y);
    law_texts_are_ordered_by_their_first_difference(y, x);
}

/// Whether bytes are the smaller ones: behind what they have in common they end, or have the
/// smaller byte.
pub open spec fn smaller_bytes(a: Seq<u8>, b: Seq<u8>) -> bool {
    exists|n: int|
        #![trigger a.take(n)]
        0 <= n <= a.len() && n < b.len() && a.take(n) == b.take(n) && (n == a.len() || a[n] < b[n])
}

proof fn lemma_bytes_before(a: Seq<u8>, b: Seq<u8>)
    ensures
        bytes_before(a, b) <==> smaller_bytes(a, b),
    decreases a.len(),
{
    if b.len() > 0 && a.len() == 0 {
        assert(a.take(0) =~= b.take(0));
    } else if a.len() > 0 && b.len() > 0 {
        let (c, d) = (a.drop_first(), b.drop_first());
        if a[0] == b[0] {
            lemma_bytes_before(c, d);
            if smaller_bytes(c, d) {
                let n = choose|n: int|
                    #![trigger c.take(n)]
                    0 <= n <= c.len() && n < d.len() && c.take(n) == d.take(n) && (n == c.len()
                        || c[n] < d[n]);
                assert forall|k: int| 0 <= k < n + 1 implies a[k] == b[k] by {
                    if k > 0 {
                        assert(c.take(n)[k - 1] == d.take(n)[k - 1]);
                    }
                }
                assert(a.take(n + 1) =~= b.take(n + 1));
            }
            if smaller_bytes(a, b) {
                let n = choose|n: int|
                    #![trigger a.take(n)]
                    0 <= n <= a.len() && n < b.len() && a.take(n) == b.take(n) && (n == a.len()
                        || a[n] < b[n]);
                assert forall|k: int| 0 <= k < n - 1 implies c[k] == d[k] by {
                    assert(a.take(n)[k + 1] == b.take(n)[k + 1]);
                }
                assert(c.take(n - 1) =~= d.take(n - 1));
            }
        } else {
            assert(a.take(0) =~= b.take(0));
            if smaller_bytes(a, b) {
                let n = choose|n: int|
                    #![trigger a.take(n)]
                    0 <= n <= a.len() && n < b.len() && a.take(n) == b.take(n) && (n == a.len()
                        || a[n] < b[n]);
                if n > 0 {
                    assert(a.take(n)[0] == b.take(n)[0]);
                }
            }
        }
    }
}

proof fn lemma_bytes_one_way(a: Seq<u8>, b: Seq<u8>)
    ensures
        !(bytes_before(a, b) && bytes_before(b, a)),
        a == b || bytes_before(a, b) || bytes_before(b, a),
        !bytes_before(a, a),
    decreases a.len(),
{
    if a.len() == 0 && b.len() == 0 {
        assert(a =~= b);
    }
    if a.len() > 0 && b.len() > 0 && a[0] == b[0] {
        lemma_bytes_one_way(a.drop_first(), b.drop_first());
        if a.drop_first() == b.drop_first() {
            assert(a =~= seq![a[0]] + a.drop_first());
            assert(b =~= seq![b[0]] + b.drop_first());
        }
    } else if a.len() > 0 {
        lemma_bytes_one_way(a.drop_first(), a.drop_first());
    }
}

/// Bytes are compared by the first of them in which they differ.
pub proof fn law_bytes_are_compared(
    f: Facts,
    schema: Schema,
    row: Seq<SqlValue>,
    cased: bool,
    a: ScalarExpr,
    b: ScalarExpr,
    x: Seq<u8>,
    y: Seq<u8>,
)
    requires
        gives(f, schema, row, a, cased, SqlValue::Blob(x)),
        gives(f, schema, row, b, cased, SqlValue::Blob(y)),
    ensures
        says(f, schema, row, comparing(a, CompareOp::Lt, b), cased, smaller_bytes(x, y)),
        says(f, schema, row, comparing(a, CompareOp::Gt, b), cased, smaller_bytes(y, x)),
        says(f, schema, row, comparing(a, CompareOp::Eq, b), cased, x == y),
        says(f, schema, row, comparing(a, CompareOp::Lte, b), cased, !smaller_bytes(y, x)),
        says(f, schema, row, comparing(a, CompareOp::Gte, b), cased, !smaller_bytes(x, y)),
        says(f, schema, row, comparing(a, CompareOp::Ne, b), cased, x != y),
{
    lemma_bytes_before(x, y);
    lemma_bytes_before(y, x);
    lemma_bytes_one_way(x, y);
}

/// Numbers come before texts, and texts before bytes; a truth value counts as one or zero.
pub proof fn law_numbers_come_before_texts_before_bytes(
    f: Facts,
    schema: Schema,
    row: Seq<SqlValue>,
    cased: bool,
    a: ScalarExpr,
    b: ScalarExpr,
    v: SqlValue,
    w: SqlValue,
)
    requires
        gives(f, schema, row, a, cased, v),
        gives(f, schema, row, b, cased, w),
    ensures
        (v is Integer || v is Real || v is Boolean) && (w is Text || w is Blob) || (v is Text
            && w is Blob) ==> {
            &&& says(f, schema, row, comparing(a, CompareOp::Lt, b), cased, true)
            &&& says(f, schema, row, comparing(a, CompareOp::Eq, b), cased, false)
            &&& says(f, schema, row, comparing(b, CompareOp::Gt, a), cased, true)
        },
        v matches SqlValue::Boolean(p) ==> (w matches SqlValue::Integer(j) ==> {
            let i: int = if p {
                1
            } else {
                0
            };
            &&& says(f, schema, row, comparing(a, CompareOp::Lt, b), cased, i < j)
            &&& says(f, schema, row, comparing(a, CompareOp::Eq, b), cased, i == j)
            &&& says(f, schema, row, comparing(b, CompareOp::Lt, a), cased, j < i)
        }),
        v matches SqlValue::Boolean(p) ==> (w matches SqlValue::Boolean(q) ==> {
            &&& says(f, schema, row, comparing(a, CompareOp::Lt, b), cased, !p && q)
            &&& says(f, schema, row, comparing(a, CompareOp::Eq, b), cased, p == q)
        }),
        v is Null || w is Null ==> forall|op: CompareOp| #[trigger]
            gives(f, schema, row, comparing(a, op, b), cased, SqlValue::Null),
{
}

/// The comparisons of two values agree: each is the opposite of another, and turning the values
/// round turns the comparison round.
pub proof fn law_comparisons_agree(
    f: Facts,
    schema: Schema,
    row: Seq<SqlValue>,
    cased: bool,
    a: ScalarExpr,
    b: ScalarExpr,
    p: bool,
)
    ensures
        says(f, schema, row, comparing(a, CompareOp::Eq, b), cased, p) <==> says(
            f,
            schema,
            row,
            comparing(a, CompareOp::Ne, b),
            cased,
            !p,
        ),
        says(f, schema, row, comparing(a, CompareOp::Lt, b), cased, p) <==> says(
            f,
            schema,
            row,
            comparing(a, CompareOp::Gte, b),
            cased,
            !p,
        ),
        says(f, schema, row, comparing(a, CompareOp::Gt, b), cased, p) <==> says(
            f,
            schema,
            row,
            comparing(a, CompareOp::Lte, b),
            cased,
            !p,
        ),
        says(f, schema, row, comparing(a, CompareOp::Lt, b), cased, true) && says(
            f,
            schema,
            row,
            comparing(a, CompareOp::Eq, b),
            cased,
            p,
        ) ==> !p,
{
}

/// A value is between two bounds where it is not below the one and not above the other.
pub proof fn law_bounds_are_compared(
    f: Facts,
    schema: Schema,
    row: Seq<SqlValue>,
    cased: bool,
    a: ScalarExpr,
    low: ScalarExpr,
    high: ScalarExpr,
    negated: bool,
    p: bool,
    q: bool,
)
    requires
        says(f, schema, row, comparing(a, CompareOp::Gte, low), cased, p),
        says(f, schema, row, comparing(a, CompareOp::Lte, high), cased, q),
    ensures
        says(
            f,
            schema,
            row,
            ScalarExpr::Between {
                expr: Box::new(a),
                low: Box::new(low),
                high: Box::new(high),
                negated,
            },
            cased,
            if negated {
                !p || !q
            } else {
                p && q
            },
        ),
{
}

/// The opposite of what is true is false, and of what is false true; zero is false, and so are no
/// other integers. What is nothing has no opposite.
pub proof fn law_opposites(
    f: Facts,
    schema: Schema,
    row: Seq<SqlValue>,
    cased: bool,
    a: ScalarExpr,
    v: SqlValue,
)
    requires
        gives(f, schema, row, a, cased, v),
    ensures
        ({
            let not = ScalarExpr::Not(Box::new(a));
            &&& v matches SqlValue::Boolean(b) ==> says(f, schema, row, not, cased, !b)
            &&& v matches SqlValue::Integer(i) ==> says(f, schema, row, not, cased, i == 0)
            &&& v is Null ==> gives(f, schema, row, not, cased, SqlValue::Null)
        }),
{
}

/// Two values are the same or not, whatever they are; nothing is the same as nothing.
pub proof fn law_values_are_the_same_or_not(
    f: Facts,
    schema: Schema,
    row: Seq<SqlValue>,
    cased: bool,
    a: ScalarExpr,
    b: ScalarExpr,
    v: SqlValue,
    w: SqlValue,
)
    requires
        gives(f, schema, row, a, cased, v),
        gives(f, schema, row, b, cased, w),
    ensures
        says(
            f,
            schema,
            row,
            ScalarExpr::Is { left: Box::new(a), right: Box::new(b), negated: false },
            cased,
            v == w,
        ),
        says(
            f,
            schema,
            row,
            ScalarExpr::Is { left: Box::new(a), right: Box::new(b), negated: true },
            cased,
            v != w,
        ),
{
}

/// A value is true where it is the truth value or an integer but zero; what is nothing is neither
/// true nor false.
pub proof fn law_values_are_true_or_false(
    f: Facts,
    schema: Schema,
    row: Seq<SqlValue>,
    cased: bool,
    a: ScalarExpr,
    v: SqlValue,
    value: bool,
)
    requires
        gives(f, schema, row, a, cased, v),
    ensures
        ({
            let is = ScalarExpr::IsBool { expr: Box::new(a), value, negated: false };
            let isnt = ScalarExpr::IsBool { expr: Box::new(a), value, negated: true };
            &&& v matches SqlValue::Boolean(b) ==> says(f, schema, row, is, cased, b == value)
            &&& v matches SqlValue::Integer(i) ==> says(f, schema, row, is, cased, (i != 0) == value)
            &&& v is Null ==> says(f, schema, row, is, cased, false)
            &&& v matches SqlValue::Boolean(b) ==> says(f, schema, row, isnt, cased, b != value)
            &&& v matches SqlValue::Integer(i) ==> says(
                f,
                schema,
                row,
                isnt,
                cased,
                (i != 0) != value,
            )
            &&& v is Null ==> says(f, schema, row, isnt, cased, true)
        }),
{
}

// ---------------------------------------------------------------------------
// Lists

proof fn lemma_evaluated_from(
    f: Facts,
    schema: Schema,
    row: Seq<SqlValue>,
    items: Seq<ScalarExpr>,
    i: int,
    cased: bool,
    out: Seq<SqlValue>,
    list: Seq<SqlValue>,
)
    requires
        0 <= i <= items.len(),
        out.len() == i,
    ensures
        evaluated_from(f, schema, row, items, i, cased, out) == Ok::<_, StopView>(list) <==> {
            &&& list.len() == items.len()
            &&& forall|k: int| 0 <= k < i ==> #[trigger] list[k] == out[k]
            &&& forall|k: int|
                i <= k < items.len() ==> gives(f, schema, row, items[k], cased, #[trigger] list[k])
        },
    decreases items.len() - i,
{
    if i < items.len() {
        match evaluated(f, schema, row, items[i], cased) {
            Ok(v) => {
                let next = out.push(v);
                lemma_evaluated_from(f, schema, row, items, i + 1, cased, next, list);
                if evaluated_from(f, schema, row, items, i, cased, out) == Ok::<_, StopView>(list) {
                    assert(list[i] == next[i]);
                    assert forall|k: int| 0 <= k < i implies #[trigger] list[k] == out[k] by {
                        assert(next[k] == out[k]);
                    }
                }
                if list.len() == items.len() && (forall|k: int|
                    0 <= k < i ==> #[trigger] list[k] == out[k]) && (forall|k: int|
                    i <= k < items.len() ==> gives(
                        f,
                        schema,
                        row,
                        items[k],
                        cased,
                        #[trigger] list[k],
                    )) {
                    assert(list[i] == v);
                    assert forall|k: int| 0 <= k < i + 1 implies #[trigger] list[k] == next[k] by {
                        if k < i {
                            assert(next[k] == out[k]);
                        }
                    }
                }
            },
            Err(_) => {
                if list.len() == items.len() {
                    assert(list[i] == list[i]);
                }
            },
        }
    } else {
        if list.len() == items.len() && forall|k: int| 0 <= k < i ==> #[trigger] list[k] == out[k] {
            assert(list =~= out);
        }
    }
}

/// The arguments of a function are what its parts give, in their order.
pub proof fn law_functions_get_what_their_arguments_give(
    f: Facts,
    schema: Schema,
    row: Seq<SqlValue>,
    cased: bool,
    func: ScalarFunc,
    args: Vec<ScalarExpr>,
    list: Seq<SqlValue>,
    v: SqlValue,
)
    requires
        !(func is IIf),
        !(func is If),
        list.len() == args@.len(),
        forall|k: int|
            0 <= k < args@.len() ==> gives(f, schema, row, args@[k], cased, #[trigger] list[k]),
    ensures
        gives(f, schema, row, ScalarExpr::Function { func, args }, cased, v) <==> answers(
            f,
            func,
            list,
            cased,
            v,
        ),
{
    lemma_evaluated_from(f, schema, row, args@, 0, cased, Seq::empty(), list);
}

/// Whether a value is equal to one of a list.
pub open spec fn equals(f: Facts, v: SqlValue, w: SqlValue) -> bool {
    !(v is Null) && !(w is Null) && value_order(f, v, w) == Ok::<_, StopView>(Order::Equal)
}

/// Whether one of the values of a list from one on is nothing.
spec fn null_among(list: Seq<SqlValue>, i: int) -> bool {
    exists|k: int| i <= k < list.len() && (#[trigger] list[k]) is Null
}

proof fn lemma_listed_from(
    f: Facts,
    v: SqlValue,
    list: Seq<SqlValue>,
    negated: bool,
    i: int,
    saw_null: bool,
)
    requires
        0 <= i <= list.len(),
        !(v is Null),
        forall|k: int|
            0 <= k < list.len() && !(list[k] is Null) ==> (#[trigger] value_order(f, v, list[k])) is Ok,
    ensures
        (exists|k: int| i <= k < list.len() && #[trigger] equals(f, v, list[k])) ==> listed_from(
            f,
            v,
            list,
            negated,
            i,
            saw_null,
        ) == Ok::<_, StopView>(SqlValue::Boolean(!negated)),
        (forall|k: int| i <= k < list.len() ==> !#[trigger] equals(f, v, list[k])) ==> listed_from(
            f,
            v,
            list,
            negated,
            i,
            saw_null,
        ) == Ok::<_, StopView>(
            if saw_null || null_among(list, i) {
                SqlValue::Null
            } else {
                SqlValue::Boolean(negated)
            },
        ),
    decreases list.len() - i,
{
    if i < list.len() {
        lemma_listed_from(f, v, list, negated, i + 1, saw_null || list[i] is Null);
        if !(list[i] is Null) {
            assert(value_order(f, v, list[i]) is Ok);
        }
        assert(null_among(list, i) == (list[i] is Null || null_among(list, i + 1)));
        if exists|k: int| i <= k < list.len() && #[trigger] equals(f, v, list[k]) {
            let k = choose|k: int| i <= k < list.len() && #[trigger] equals(f, v, list[k]);
            if k > i {
                assert(i + 1 <= k < list.len() && equals(f, v, list[k]));
            }
        } else {
            assert(!equals(f, v, list[i]));
            if !(list[i] is Null) {
                assert(compared(f, v, CompareOp::Eq, list[i]) == Ok::<_, StopView>(false));
            }
        }
    }
}

/// A value is in a list where it is equal to one of its values. Where it is equal to none, but one
/// of them is nothing, that is not known.
pub proof fn law_values_are_looked_for_in_lists(
    f: Facts,
    schema: Schema,
    row: Seq<SqlValue>,
    cased: bool,
    a: ScalarExpr,
    values: Vec<ScalarExpr>,
    negated: bool,
    v: SqlValue,
    list: Seq<SqlValue>,
)
    requires
        gives(f, schema, row, a, cased, v),
        list.len() == values@.len(),
        forall|k: int|
            0 <= k < list.len() ==> gives(f, schema, row, values@[k], cased, #[trigger] list[k]),
        forall|k: int|
            0 <= k < list.len() && !(list[k] is Null) ==> (#[trigger] value_order(f, v, list[k])) is Ok,
    ensures
        ({
            let within = ScalarExpr::InList { expr: Box::new(a), values, negated };
            if v is Null {
                gives(f, schema, row, within, cased, SqlValue::Null)
            } else if exists|k: int| 0 <= k < list.len() && #[trigger] equals(f, v, list[k]) {
                says(f, schema, row, within, cased, !negated)
            } else if exists|k: int| 0 <= k < list.len() && (#[trigger] list[k]) is Null {
                gives(f, schema, row, within, cased, SqlValue::Null)
            } else {
                says(f, schema, row, within, cased, negated)
            }
        }),
{
    lemma_evaluated_from(f, schema, row, values@, 0, cased, Seq::empty(), list);
    if !(v is Null) {
        lemma_listed_from(f, v, list, negated, 0, false);
    }
}

/// Integers are equal where they are the same, and so are texts and bytes.
pub proof fn law_equal_values_are_the_same(
    f: Facts,
    i: i64,
    j: i64,
    x: Seq<char>,
    y: Seq<char>,
    p: Seq<u8>,
    q: Seq<u8>,
)
    ensures
        equals(f, SqlValue::Integer(i), SqlValue::Integer(j)) <==> i == j,
        equals(f, SqlValue::Text(x), SqlValue::Text(y)) <==> x == y,
        equals(f, SqlValue::Blob(p), SqlValue::Blob(q)) <==> p == q,
        !equals(f, SqlValue::Integer(i), SqlValue::Text(x)),
        !equals(f, SqlValue::Text(x), SqlValue::Blob(p)),
{
}

// ---------------------------------------------------------------------------
// Choices

/// Whether what a condition gives counts as true.
pub open spec fn counts_as_true(v: SqlValue) -> bool {
    v == SqlValue::Boolean(true) || (v matches SqlValue::Integer(i) && i != 0)
}

/// Whether what a condition gives is a truth value, an integer or nothing.
pub open spec fn plain(v: SqlValue) -> bool {
    v is Boolean || v is Integer || v is Null
}

/// Whether a branch of a choice is the one to take: its condition holds, or is what is asked for.
pub open spec fn is_met(f: Facts, base: Option<SqlValue>, v: SqlValue) -> bool {
    match base {
        None => counts_as_true(v),
        Some(b) => equals(f, b, v),
    }
}

/// Whether a branch of a choice can be told.
pub open spec fn can_be_told(f: Facts, base: Option<SqlValue>, v: SqlValue) -> bool {
    match base {
        None => plain(v),
        Some(b) => b is Null || v is Null || value_order(f, b, v) is Ok,
    }
}

proof fn lemma_case_from(
    f: Facts,
    schema: Schema,
    row: Seq<SqlValue>,
    base: Option<SqlValue>,
    items: Seq<(ScalarExpr, ScalarExpr)>,
    i: int,
    cased: bool,
    conditions: Seq<SqlValue>,
    n: int,
    v: SqlValue,
)
    requires
        0 <= i <= n <= items.len(),
        conditions.len() == items.len(),
        forall|k: int|
            0 <= k < items.len() ==> gives(
                f,
                schema,
                row,
                items[k].0,
                cased,
                #[trigger] conditions[k],
            ),
        forall|k: int|
            0 <= k < items.len() ==> can_be_told(f, base, #[trigger] conditions[k]),
        forall|k: int| 0 <= k < n ==> !is_met(f, base, #[trigger] conditions[k]),
        n < items.len() ==> is_met(f, base, conditions[n]),
        n < items.len() ==> gives(f, schema, row, items[n].1, cased, v),
    ensures
        n < items.len() ==> case_from(f, schema, row, base, items, i, cased) == Ok::<_, StopView>(
            Some(v),
        ),
        n == items.len() ==> case_from(f, schema, row, base, items, i, cased) == Ok::<
            Option<SqlValue>,
            StopView,
        >(None),
    decreases n - i,
{
    if i < items.len() {
        assert(gives(f, schema, row, items[i].0, cased, conditions[i]));
        assert(can_be_told(f, base, conditions[i]));
        if i < n {
            lemma_case_from(
                f,
                schema,
                row,
                base,
                items,
                i + 1,
                cased,
                conditions,
                n,
                v,
            );
        }
    }
}

/// A choice gives what its first branch gives whose condition holds, and what is given otherwise
/// where there is none.
pub proof fn law_the_first_branch_that_holds_is_taken(
    f: Facts,
    schema: Schema,
    row: Seq<SqlValue>,
    cased: bool,
    base: Option<Box<ScalarExpr>>,
    base_value: Option<SqlValue>,
    branches: Vec<(ScalarExpr, ScalarExpr)>,
    otherwise: Option<Box<ScalarExpr>>,
    conditions: Seq<SqlValue>,
    n: int,
    v: SqlValue,
)
    requires
        base is Some == base_value is Some,
        base matches Some(e) ==> gives(f, schema, row, *e, cased, base_value->Some_0),
        0 <= n <= branches@.len(),
        conditions.len() == branches@.len(),
        forall|k: int|
            0 <= k < branches@.len() ==> gives(
                f,
                schema,
                row,
                branches@[k].0,
                cased,
                #[trigger] conditions[k],
            ),
        forall|k: int|
            0 <= k < branches@.len() ==> can_be_told(f, base_value, #[trigger] conditions[k]),
        forall|k: int| 0 <= k < n ==> !is_met(f, base_value, #[trigger] conditions[k]),
        n < branches@.len() ==> is_met(f, base_value, conditions[n]),
        n < branches@.len() ==> gives(f, schema, row, branches@[n].1, cased, v),
        n == branches@.len() ==> (match otherwise {
            Some(e) => gives(f, schema, row, *e, cased, v),
            None => v is Null,
        }),
    ensures
        gives(
            f,
            schema,
            row,
            ScalarExpr::Case { base, when_then_clauses: branches, else_expr: otherwise },
            cased,
            v,
        ),
{
    lemma_case_from(
        f,
        schema,
        row,
        base_value,
        branches@,
        0,
        cased,
        conditions,
        n,
        v,
    );
}

/// A choice of two gives the first where the condition holds, and else the second, or nothing
/// where there is no second.
pub proof fn law_one_of_two_is_chosen(
    f: Facts,
    schema: Schema,
    row: Seq<SqlValue>,
    cased: bool,
    func: ScalarFunc,
    args: Vec<ScalarExpr>,
    c: SqlValue,
    v: SqlValue,
)
    requires
        func is IIf || func is If,
        args@.len() == 2 || args@.len() == 3,
        gives(f, schema, row, args@[0], cased, c),
        plain(c),
    ensures
        counts_as_true(c) ==> (gives(f, schema, row, ScalarExpr::Function { func, args }, cased, v)
            <==> gives(f, schema, row, args@[1], cased, v)),
        !counts_as_true(c) && args@.len() == 3 ==> (gives(
            f,
            schema,
            row,
            ScalarExpr::Function { func, args },
            cased,
            v,
        ) <==> gives(f, schema, row, args@[2], cased, v)),
        !counts_as_true(c) && args@.len() == 2 ==> gives(
            f,
            schema,
            row,
            ScalarExpr::Function { func, args },
            cased,
            SqlValue::Null,
        ),
{
    let items = args@;
    assert(cast(f, c, ColumnType::Boolean) == Ok::<_, StopView>(
        if c is Null {
            SqlValue::Null
        } else {
            SqlValue::Boolean(counts_as_true(c))
        },
    ));
    let rest = chosen_from(f, schema, row, items, 2, cased);
    assert(rest == if items.len() == 3 {
        evaluated(f, schema, row, items[2], cased)
    } else {
        Ok(SqlValue::Null)
    });
    assert(chosen_from(f, schema, row, items, 0, cased) == if counts_as_true(c) {
        evaluated(f, schema, row, items[1], cased)
    } else {
        rest
    });
    assert(arity_check(func, items.len()) is Ok);
}

proof fn lemma_first_known(args: Seq<SqlValue>, i: int, n: int)
    requires
        0 <= i <= n <= args.len(),
        forall|k: int| 0 <= k < n ==> (#[trigger] args[k]) is Null,
        n < args.len() ==> !(args[n] is Null),
    ensures
        first_known(args, i) == if n < args.len() {
            args[n]
        } else {
            SqlValue::Null
        },
    decreases n - i,
{
    if i < n {
        lemma_first_known(args, i + 1, n);
    }
}

/// Of several values the first counts that is not nothing.
pub proof fn law_the_first_known_value_counts(
    f: Facts,
    args: Seq<SqlValue>,
    cased: bool,
    n: int,
)
    requires
        args.len() >= 2,
        0 <= n <= args.len(),
        forall|k: int| 0 <= k < n ==> (#[trigger] args[k]) is Null,
        n < args.len() ==> !(args[n] is Null),
    ensures
        n < args.len() ==> answers(f, ScalarFunc::Coalesce, args, cased, args[n]),
        n == args.len() ==> answers(f, ScalarFunc::Coalesce, args, cased, SqlValue::Null),
        args.len() == 2 && n < 2 ==> answers(f, ScalarFunc::IfNull, args, cased, args[n]),
        args.len() == 2 && args[0] == args[1] ==> answers(
            f,
            ScalarFunc::NullIf,
            args,
            cased,
            SqlValue::Null,
        ),
        args.len() == 2 && args[0] != args[1] ==> answers(
            f,
            ScalarFunc::NullIf,
            args,
            cased,
            args[0],
        ),
{
    lemma_first_known(args, 0, n);
}

proof fn lemma_null_from(args: Seq<SqlValue>, i: int)
    requires
        0 <= i <= args.len(),
    ensures
        null_from(args, i) <==> exists|k: int| i <= k < args.len() && (#[trigger] args[k]) is Null,
    decreases args.len() - i,
{
    if i < args.len() {
        lemma_null_from(args, i + 1);
    }
}

proof fn lemma_best_from(f: Facts, args: Seq<SqlValue>, least: bool, i: int, best: i64)
    requires
        0 <= i <= args.len(),
        forall|k: int| 0 <= k < args.len() ==> (#[trigger] args[k]) is Integer,
    ensures
        best_from(f, args, least, i, SqlValue::Integer(best)) matches Ok(SqlValue::Integer(n)) && {
            &&& n == best || exists|k: int|
                i <= k < args.len() && #[trigger] args[k] == SqlValue::Integer(n)
            &&& if least {
                n <= best
            } else {
                n >= best
            }
            &&& forall|k: int|
                i <= k < args.len() ==> if least {
                    n <= (#[trigger] args[k])->Integer_0
                } else {
                    n >= args[k]->Integer_0
                }
        },
    decreases args.len() - i,
{
    if i < args.len() {
        assert(args[i] is Integer);
        let j = args[i]->Integer_0;
        if least {
            lemma_best_from(f, args, least, i + 1, if j <= best { j } else { best });
        } else {
            lemma_best_from(f, args, least, i + 1, if j > best { j } else { best });
        }
        assert(args[i] == SqlValue::Integer(j));
    }
}

/// The least of integers is one of them that is not above another, and the greatest one that is
/// not below another. Where one value is nothing, there is neither.
pub proof fn law_the_least_and_the_greatest_are_found(f: Facts, args: Seq<SqlValue>, cased: bool, n: i64)
    requires
        args.len() >= 1,
    ensures
        (exists|k: int| 0 <= k < args.len() && (#[trigger] args[k]) is Null) ==> {
            &&& answers(f, ScalarFunc::MinScalar, args, cased, SqlValue::Null)
            &&& answers(f, ScalarFunc::MaxScalar, args, cased, SqlValue::Null)
        },
        (forall|k: int| 0 <= k < args.len() ==> (#[trigger] args[k]) is Integer) && args.contains(
            SqlValue::Integer(n),
        ) && (forall|k: int| 0 <= k < args.len() ==> n <= (#[trigger] args[k])->Integer_0)
            ==> answers(f, ScalarFunc::MinScalar, args, cased, SqlValue::Integer(n)),
        (forall|k: int| 0 <= k < args.len() ==> (#[trigger] args[k]) is Integer) && args.contains(
            SqlValue::Integer(n),
        ) && (forall|k: int| 0 <= k < args.len() ==> n >= (#[trigger] args[k])->Integer_0)
            ==> answers(f, ScalarFunc::MaxScalar, args, cased, SqlValue::Integer(n)),
{
    lemma_null_from(args, 0);
    if forall|k: int| 0 <= k < args.len() ==> (#[trigger] args[k]) is Integer {
        let first = args[0]->Integer_0;
        lemma_best_from(f, args, true, 1, first);
        lemma_best_from(f, args, false, 1, first);
        assert(args[0] == SqlValue::Integer(first));
        if args.contains(SqlValue::Integer(n)) {
            let k = choose|k: int| 0 <= k < args.len() && args[k] == SqlValue::Integer(n);
            assert(args[k]->Integer_0 == n);
        }
    }
}

// ---------------------------------------------------------------------------
// Texts put together, and values turned into others

/// Two texts are put together in their order, an integer as the text of its digits; with nothing
/// there is nothing.
pub proof fn law_texts_are_put_together(
    f: Facts,
    schema: Schema,
    row: Seq<SqlValue>,
    cased: bool,
    a: ScalarExpr,
    b: ScalarExpr,
    v: SqlValue,
    w: SqlValue,
)
    requires
        gives(f, schema, row, a, cased, v),
        gives(f, schema, row, b, cased, w),
    ensures
        v matches SqlValue::Text(x) ==> (w matches SqlValue::Text(y) ==> gives(
            f,
            schema,
            row,
            operation(a, ScalarBinaryOp::Concat, b),
            cased,
            SqlValue::Text(x + y),
        )),
        v matches SqlValue::Integer(i) ==> (w matches SqlValue::Text(y) ==> gives(
            f,
            schema,
            row,
            operation(a, ScalarBinaryOp::Concat, b),
            cased,
            SqlValue::Text(int_text(i as int) + y),
        )),
        v is Null || w is Null ==> gives(
            f,
            schema,
            row,
            operation(a, ScalarBinaryOp::Concat, b),
            cased,
            SqlValue::Null,
        ),
{
}

/// What is nothing stays nothing, whatever it is turned into, and a value that is of a type
/// already stays what it is.
pub proof fn law_values_of_a_type_stay(
    f: Facts,
    schema: Schema,
    row: Seq<SqlValue>,
    cased: bool,
    a: ScalarExpr,
    v: SqlValue,
    ty: ColumnType,
)
    requires
        gives(f, schema, row, a, cased, v),
        v is Null || (match ty {
            ColumnType::Boolean => v is Boolean,
            ColumnType::Integer => v is Integer,
            ColumnType::Numeric => v is Integer || v is Real,
            ColumnType::Real => v is Real,
            ColumnType::Text | ColumnType::Any => v is Text,
            ColumnType::Blob => v is Blob,
        }),
    ensures
        gives(f, schema, row, ScalarExpr::Cast { expr: Box::new(a), ty }, cased, v),
{
}

/// A truth value becomes one or zero, and an integer but zero the truth.
pub proof fn law_truth_values_become_integers(
    f: Facts,
    schema: Schema,
    row: Seq<SqlValue>,
    cased: bool,
    a: ScalarExpr,
    v: SqlValue,
)
    requires
        gives(f, schema, row, a, cased, v),
    ensures
        ({
            let to_integer = ScalarExpr::Cast { expr: Box::new(a), ty: ColumnType::Integer };
            let to_boolean = ScalarExpr::Cast { expr: Box::new(a), ty: ColumnType::Boolean };
            let to_numeric = ScalarExpr::Cast { expr: Box::new(a), ty: ColumnType::Numeric };
            &&& v == SqlValue::Boolean(true) ==> gives(
                f,
                schema,
                row,
                to_integer,
                cased,
                SqlValue::Integer(1),
            )
            &&& v == SqlValue::Boolean(false) ==> gives(
                f,
                schema,
                row,
                to_integer,
                cased,
                SqlValue::Integer(0),
            )
            &&& v is Boolean ==> (forall|w: SqlValue|
                gives(f, schema, row, to_integer, cased, w) == #[trigger] gives(
                    f,
                    schema,
                    row,
                    to_numeric,
                    cased,
                    w,
                ))
            &&& v matches SqlValue::Integer(i) ==> says(f, schema, row, to_boolean, cased, i != 0)
        }),
{
}

} // verus!
