//! What the operators of expressions give, in terms of what their operands give.

use vstd::prelude::*;

use crate::common::schema::Schema;
use crate::common::value::{CompareOp, SqlValue};
use crate::sqlite3::arithmetic::{quotient, remainder, shifted, size_of_int, ScalarBinaryOp};
use crate::sqlite3::expr::ScalarExpr;
use crate::sqlite3::index_expr::evaluated;
use crate::sqlite3::reals::{real_answer, real_of_int, Facts, RealOp, StopView};

verus! {

/// Whether an expression gives a value in a row.
pub open spec fn gives(
    f: Facts,
    schema: Schema,
    row: Seq<SqlValue>,
    expr: ScalarExpr,
    cased: bool,
    v: SqlValue,
) -> bool {
    evaluated(f, schema, row, expr, cased) == Ok::<_, StopView>(v)
}

/// The expression of an operator between two others.
pub open spec fn operation(left: ScalarExpr, op: ScalarBinaryOp, right: ScalarExpr) -> ScalarExpr {
    ScalarExpr::Binary { left: Box::new(left), op, right: Box::new(right) }
}

/// The expression of a comparison of two others.
pub open spec fn comparing(left: ScalarExpr, op: CompareOp, right: ScalarExpr) -> ScalarExpr {
    ScalarExpr::Compare { left: Box::new(left), op, right: Box::new(right) }
}

// ---------------------------------------------------------------------------
// Arithmetic

/// A sum, a difference and a product of integers are the numbers that they should be, wherever
/// these fit.
pub proof fn law_integers_are_added_subtracted_and_multiplied(
    f: Facts,
    schema: Schema,
    row: Seq<SqlValue>,
    cased: bool,
    a: ScalarExpr,
    b: ScalarExpr,
    i: i64,
    j: i64,
    n: i64,
)
    requires
        gives(f, schema, row, a, cased, SqlValue::Integer(i)),
        gives(f, schema, row, b, cased, SqlValue::Integer(j)),
    ensures
        n == i + j ==> gives(
            f,
            schema,
            row,
            operation(a, ScalarBinaryOp::Add, b),
            cased,
            SqlValue::Integer(n),
        ),
        n + j == i ==> gives(
            f,
            schema,
            row,
            operation(a, ScalarBinaryOp::Subtract, b),
            cased,
            SqlValue::Integer(n),
        ),
        n == i * j ==> gives(
            f,
            schema,
            row,
            operation(a, ScalarBinaryOp::Multiply, b),
            cased,
            SqlValue::Integer(n),
        ),
{
}

/// Where a sum, a difference or a product of integers does not fit, it is a real: what the reals
/// that stand for them give.
pub proof fn law_overflowing_integers_become_reals(
    f: Facts,
    schema: Schema,
    row: Seq<SqlValue>,
    cased: bool,
    a: ScalarExpr,
    b: ScalarExpr,
    i: i64,
    j: i64,
    x: u64,
    y: u64,
    z: u64,
)
    requires
        gives(f, schema, row, a, cased, SqlValue::Integer(i)),
        gives(f, schema, row, b, cased, SqlValue::Integer(j)),
        real_of_int(f, i) == Ok::<_, StopView>(x),
        real_of_int(f, j) == Ok::<_, StopView>(y),
    ensures
        !(i64::MIN <= i + j <= i64::MAX) && real_answer(f, RealOp::Add, x, y) == Ok::<_, StopView>(z)
            ==> gives(
            f,
            schema,
            row,
            operation(a, ScalarBinaryOp::Add, b),
            cased,
            SqlValue::Real(z),
        ),
        !(i64::MIN <= i - j <= i64::MAX) && real_answer(f, RealOp::Subtract, x, y) == Ok::<
            _,
            StopView,
        >(z) ==> gives(
            f,
            schema,
            row,
            operation(a, ScalarBinaryOp::Subtract, b),
            cased,
            SqlValue::Real(z),
        ),
        !(i64::MIN <= i * j <= i64::MAX) && real_answer(f, RealOp::Multiply, x, y) == Ok::<
            _,
            StopView,
        >(z) ==> gives(
            f,
            schema,
            row,
            operation(a, ScalarBinaryOp::Multiply, b),
            cased,
            SqlValue::Real(z),
        ),
{
}

/// Operators between reals give what the reals give, in the order in which they stand.
pub proof fn law_reals_are_combined_in_their_order(
    f: Facts,
    schema: Schema,
    row: Seq<SqlValue>,
    cased: bool,
    a: ScalarExpr,
    b: ScalarExpr,
    x: u64,
    y: u64,
    z: u64,
)
    requires
        gives(f, schema, row, a, cased, SqlValue::Real(x)),
        gives(f, schema, row, b, cased, SqlValue::Real(y)),
    ensures
        real_answer(f, RealOp::Add, x, y) == Ok::<_, StopView>(z) ==> gives(
            f,
            schema,
            row,
            operation(a, ScalarBinaryOp::Add, b),
            cased,
            SqlValue::Real(z),
        ),
        real_answer(f, RealOp::Subtract, x, y) == Ok::<_, StopView>(z) ==> gives(
            f,
            schema,
            row,
            operation(a, ScalarBinaryOp::Subtract, b),
            cased,
            SqlValue::Real(z),
        ),
        real_answer(f, RealOp::Multiply, x, y) == Ok::<_, StopView>(z) ==> gives(
            f,
            schema,
            row,
            operation(a, ScalarBinaryOp::Multiply, b),
            cased,
            SqlValue::Real(z),
        ),
        y != 0 && y != 0x8000_0000_0000_0000 && real_answer(f, RealOp::Divide, x, y) == Ok::<
            _,
            StopView,
        >(z) ==> gives(
            f,
            schema,
            row,
            operation(a, ScalarBinaryOp::Divide, b),
            cased,
            SqlValue::Real(z),
        ),
        y == 0 || y == 0x8000_0000_0000_0000 ==> gives(
            f,
            schema,
            row,
            operation(a, ScalarBinaryOp::Divide, b),
            cased,
            SqlValue::Null,
        ),
{
}

proof fn lemma_division(a: int, b: int)
    requires
        b != 0,
    ensures
        a == quotient(a, b) * b + remainder(a, b),
        size_of_int(remainder(a, b)) < size_of_int(b),
        a >= 0 ==> remainder(a, b) >= 0,
        a <= 0 ==> remainder(a, b) <= 0,
        size_of_int(quotient(a, b)) <= size_of_int(a),
        size_of_int(quotient(a, b)) == size_of_int(a) && a != 0 ==> size_of_int(b) == 1,
{
    let (x, y) = (size_of_int(a), size_of_int(b));
    let (q, r) = (x / y, x % y);
    assert(x == q * y + r && 0 <= r < y && 0 <= q <= x) by (nonlinear_arith)
        requires
            q == x / y,
            r == x % y,
            x >= 0,
            y >= 1,
    ;
    assert((-q) * (-y) == q * y && (-q) * y == -(q * y) && q * (-y) == -(q * y))
        by (nonlinear_arith);
    if q == x && x > 0 && y >= 2 {
        assert(q < x) by (nonlinear_arith)
            requires
                q == x / y,
                x > 0,
                y >= 2,
        ;
    }
}

/// Integers are divided so that quotient and remainder make up the dividend: the remainder is
/// nearer to zero than the divisor, and has the sign of the dividend. There is one pair of
/// integers that has no quotient among the integers.
pub proof fn law_integers_are_divided(
    f: Facts,
    schema: Schema,
    row: Seq<SqlValue>,
    cased: bool,
    a: ScalarExpr,
    b: ScalarExpr,
    i: i64,
    j: i64,
)
    requires
        gives(f, schema, row, a, cased, SqlValue::Integer(i)),
        gives(f, schema, row, b, cased, SqlValue::Integer(j)),
    ensures
        j != 0 ==> (evaluated(f, schema, row, operation(a, ScalarBinaryOp::Modulo, b), cased)
            matches Ok(SqlValue::Integer(r)) && (if i >= 0 {
            0 <= r
        } else {
            r <= 0
        }) && (if j > 0 {
            -j < r < j
        } else {
            j < r < -j
        }) && (!(i == i64::MIN && j == -1) ==> (evaluated(
            f,
            schema,
            row,
            operation(a, ScalarBinaryOp::Divide, b),
            cased,
        ) matches Ok(SqlValue::Integer(q)) && i == q * j + r))),
        j == 0 ==> gives(
            f,
            schema,
            row,
            operation(a, ScalarBinaryOp::Divide, b),
            cased,
            SqlValue::Null,
        ) && gives(
            f,
            schema,
            row,
            operation(a, ScalarBinaryOp::Modulo, b),
            cased,
            SqlValue::Null,
        ),
{
    if j != 0 {
        lemma_division(i as int, j as int);
    }
}

/// An operator gives null where one of its operands does.
pub proof fn law_null_operands_give_null(
    f: Facts,
    schema: Schema,
    row: Seq<SqlValue>,
    cased: bool,
    a: ScalarExpr,
    b: ScalarExpr,
    op: ScalarBinaryOp,
    v: SqlValue,
)
    requires
        gives(f, schema, row, a, cased, SqlValue::Null),
        gives(f, schema, row, b, cased, v),
        v is Null || v is Integer || v is Real || v is Boolean,
        !(op is JsonExtract) && !(op is JsonExtractText),
    ensures
        gives(f, schema, row, operation(a, op, b), cased, SqlValue::Null),
        gives(f, schema, row, operation(b, op, a), cased, SqlValue::Null),
{
}

/// Turning the sign of an integer gives the one that makes zero with it; turning its bits gives
/// the one that makes minus one with it.
pub proof fn law_signs_and_bits_are_turned(
    f: Facts,
    schema: Schema,
    row: Seq<SqlValue>,
    cased: bool,
    a: ScalarExpr,
    i: i64,
    n: i64,
)
    requires
        gives(f, schema, row, a, cased, SqlValue::Integer(i)),
    ensures
        n + i == 0 ==> gives(
            f,
            schema,
            row,
            ScalarExpr::UnaryMinus(Box::new(a)),
            cased,
            SqlValue::Integer(n),
        ),
        n + i == -1 ==> gives(
            f,
            schema,
            row,
            ScalarExpr::BitNot(Box::new(a)),
            cased,
            SqlValue::Integer(n),
        ),
        i == i64::MIN ==> evaluated(
            f,
            schema,
            row,
            ScalarExpr::UnaryMinus(Box::new(a)),
            cased,
        ) is Err,
        gives(
            f,
            schema,
            row,
            ScalarExpr::UnaryPlus(Box::new(a)),
            cased,
            SqlValue::Integer(i),
        ),
        gives(
            f,
            schema,
            row,
            ScalarExpr::Not(Box::new(a)),
            cased,
            SqlValue::Boolean(i == 0),
        ),
{
}

// ---------------------------------------------------------------------------
// Bits

/// Whether a bit of an integer is set.
pub open spec fn bit(i: i64, k: u64) -> bool {
    ((i as u64) >> k) & 1 == 1
}

/// Bits are combined one by one: a bit is set in the one result where it is set in both operands,
/// and in the other where it is set in one of them.
pub proof fn law_bits_are_combined_one_by_one(
    f: Facts,
    schema: Schema,
    row: Seq<SqlValue>,
    cased: bool,
    a: ScalarExpr,
    b: ScalarExpr,
    i: i64,
    j: i64,
    k: u64,
)
    requires
        gives(f, schema, row, a, cased, SqlValue::Integer(i)),
        gives(f, schema, row, b, cased, SqlValue::Integer(j)),
        k < 64,
    ensures
        evaluated(f, schema, row, operation(a, ScalarBinaryOp::BitAnd, b), cased) matches Ok(
            SqlValue::Integer(n),
        ) && (bit(n, k) <==> bit(i, k) && bit(j, k)),
        evaluated(f, schema, row, operation(a, ScalarBinaryOp::BitOr, b), cased) matches Ok(
            SqlValue::Integer(n),
        ) && (bit(n, k) <==> bit(i, k) || bit(j, k)),
{
    assert(((((i & j) as u64) >> k) & 1 == 1) == ((((i as u64) >> k) & 1 == 1) && (((j as u64) >> k)
        & 1 == 1))) by (bit_vector)
        requires
            k < 64,
    ;
    assert(((((i | j) as u64) >> k) & 1 == 1) == ((((i as u64) >> k) & 1 == 1) || (((j as u64) >> k)
        & 1 == 1))) by (bit_vector)
        requires
            k < 64,
    ;
}

/// An integer shifted by nothing stays; each further place to the left doubles it where it fits,
/// and each further place to the right halves it downwards. A shift by a negative number of
/// places goes the other way.
pub proof fn law_shifts_double_and_halve(
    f: Facts,
    schema: Schema,
    row: Seq<SqlValue>,
    cased: bool,
    a: ScalarExpr,
    b: ScalarExpr,
    c: ScalarExpr,
    i: i64,
    places: i64,
)
    requires
        gives(f, schema, row, a, cased, SqlValue::Integer(i)),
        gives(f, schema, row, b, cased, SqlValue::Integer(places)),
        0 <= places < i64::MAX,
    ensures
        places == 0 ==> gives(
            f,
            schema,
            row,
            operation(a, ScalarBinaryOp::ShiftLeft, b),
            cased,
            SqlValue::Integer(i),
        ) && gives(
            f,
            schema,
            row,
            operation(a, ScalarBinaryOp::ShiftRight, b),
            cased,
            SqlValue::Integer(i),
        ),
        gives(f, schema, row, c, cased, SqlValue::Integer((places + 1) as i64)) ==> (evaluated(
            f,
            schema,
            row,
            operation(a, ScalarBinaryOp::ShiftLeft, b),
            cased,
        ) matches Ok(SqlValue::Integer(x)) && evaluated(
            f,
            schema,
            row,
            operation(a, ScalarBinaryOp::ShiftLeft, c),
            cased,
        ) matches Ok(SqlValue::Integer(y)) && (i64::MIN <= 2 * x <= i64::MAX ==> y == 2 * x)),
        gives(f, schema, row, c, cased, SqlValue::Integer((places + 1) as i64)) ==> (evaluated(
            f,
            schema,
            row,
            operation(a, ScalarBinaryOp::ShiftRight, b),
            cased,
        ) matches Ok(SqlValue::Integer(x)) && evaluated(
            f,
            schema,
            row,
            operation(a, ScalarBinaryOp::ShiftRight, c),
            cased,
        ) matches Ok(SqlValue::Integer(y)) && 2 * y <= x <= 2 * y + 1),
        places > 0 && gives(f, schema, row, c, cased, SqlValue::Integer((-places) as i64)) ==> {
            &&& evaluated(f, schema, row, operation(a, ScalarBinaryOp::ShiftLeft, c), cased)
                == evaluated(f, schema, row, operation(a, ScalarBinaryOp::ShiftRight, b), cased)
            &&& evaluated(f, schema, row, operation(a, ScalarBinaryOp::ShiftRight, c), cased)
                == evaluated(f, schema, row, operation(a, ScalarBinaryOp::ShiftLeft, b), cased)
        },
{
    lemma_shift_step(i, places);
}

proof fn lemma_shift_step(i: i64, places: i64)
    requires
        0 <= places < i64::MAX,
    ensures
        shifted(i, 0, true) == i,
        shifted(i, 0, false) == i,
        i64::MIN <= 2 * shifted(i, places, true) <= i64::MAX ==> shifted(
            i,
            (places + 1) as i64,
            true,
        ) == 2 * shifted(i, places, true),
        2 * shifted(i, (places + 1) as i64, false) <= shifted(i, places, false) <= 2 * shifted(
            i,
            (places + 1) as i64,
            false,
        ) + 1,
{
    assert(i << 0u32 == i) by (bit_vector);
    assert(i >> 0u32 == i) by (bit_vector);
    if places < 63 {
        let n = places as u32;
        let m = (places + 1) as u32;
        let x = i << n;
        let y = i << m;
        assert(-0x4000_0000_0000_0000 <= x < 0x4000_0000_0000_0000 ==> y == 2 * x) by (bit_vector)
            requires
                n < 63,
                m == n + 1,
                x == i << n,
                y == i << m,
        ;
        let p = i >> n;
        let q = i >> m;
        assert(2 * q <= p && p <= 2 * q + 1) by (bit_vector)
            requires
                n < 63,
                m == n + 1,
                p == i >> n,
                q == i >> m,
        ;
    } else if places == 63 {
        let x = i << 63u32;
        assert(x == 0 || x == -0x8000_0000_0000_0000) by (bit_vector)
            requires
                x == i << 63u32,
        ;
        let p = i >> 63u32;
        assert(p == (if i < 0 {
            -1i64
        } else {
            0i64
        })) by (bit_vector)
            requires
                p == i >> 63u32,
        ;
    }
}

} // verus!
