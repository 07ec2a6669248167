//! The operators and the mathematical functions of expressions.

use vstd::prelude::*;

use crate::common::ordmap::Order;
use crate::common::text::{char_vec, joined};
use crate::common::value::{CompareOp, DbValue, SqlValue};
use crate::sqlite3::reals::{
    abs_bits, below, equal, int_of_real, is_zero, parsed_real, plain_view, real_answer, real_below,
    real_of_int, real_same, stop_view, Eval, Facts, RealFacts, RealOp, StopView, MINUS_ONE, ONE,
};
use crate::sqlite3::strings::{lossy, lossy_text, trim, trimmed};
use crate::sqlite3::values::{
    arithmetic_prefix, bool_int, bool_real, cast_to_integer, coerce_text_like_value,
    compare_with_operator, compared, int_of_bool, integer_cast, order_values, real_of_bool,
    sqlite_text_arithmetic_prefix, value_order, value_text,
};

verus! {

/// An operator between two values.
#[derive(Debug, Clone, Copy, PartialEq, Eq, Structural)]
pub enum ScalarBinaryOp {
    Add,
    Subtract,
    Multiply,
    Divide,
    Modulo,
    BitAnd,
    BitOr,
    ShiftLeft,
    ShiftRight,
    Concat,
    JsonExtract,
    JsonExtractText,
}

/// The distance from zero.
pub open spec fn size_of_int(i: int) -> int {
    if i < 0 {
        -i
    } else {
        i
    }
}

/// The quotient cut towards zero.
pub open spec fn quotient(a: int, b: int) -> int {
    if (a < 0) != (b < 0) {
        -(size_of_int(a) / size_of_int(b))
    } else {
        size_of_int(a) / size_of_int(b)
    }
}

/// The remainder of a quotient cut towards zero.
pub open spec fn remainder(a: int, b: int) -> int {
    if a < 0 {
        -(size_of_int(a) % size_of_int(b))
    } else {
        size_of_int(a) % size_of_int(b)
    }
}

fn unsigned(i: i64) -> (r: u64)
    ensures
        r == size_of_int(i as int),
{
    crate::common::text::magnitude(i)
}

fn signed(negative: bool, n: u64) -> (r: i64)
    requires
        n <= 0x8000_0000_0000_0000,
        n == 0x8000_0000_0000_0000 ==> negative,
    ensures
        r == if negative {
            -(n as int)
        } else {
            n as int
        },
{
    if negative {
        if n == 0x8000_0000_0000_0000 {
            i64::MIN
        } else {
            -(n as i64)
        }
    } else {
        n as i64
    }
}

/// The quotient cut towards zero.
pub fn divided(a: i64, b: i64) -> (r: i64)
    requires
        b != 0,
        !(a == i64::MIN && b == -1),
    ensures
        r == quotient(a as int, b as int),
{
    let x: u64 = unsigned(a);
    let y: u64 = unsigned(b);
    let q: u64 = x / y;
    proof {
        let x = x as int;
        let y = y as int;
        let q = q as int;
        assert(q <= x) by (nonlinear_arith)
            requires
                q == x / y,
                x >= 0,
                y >= 1,
        ;
        if x == 0x8000_0000_0000_0000 && q == x && y != 1 {
            assert(q < x) by (nonlinear_arith)
                requires
                    q == x / y,
                    x > 0,
                    y >= 2,
            ;
        }
    }
    signed((a < 0) != (b < 0), q)
}

/// The remainder of a quotient cut towards zero.
pub fn rest_of(a: i64, b: i64) -> (r: i64)
    requires
        b != 0,
    ensures
        r == remainder(a as int, b as int),
{
    let x: u64 = unsigned(a);
    let y: u64 = unsigned(b);
    signed(a < 0, x % y)
}

/// A value read as a number.
pub open spec fn number_of(f: Facts, v: SqlValue) -> Result<SqlValue, StopView> {
    match v {
        SqlValue::Integer(i) => Ok(SqlValue::Integer(i)),
        SqlValue::Real(bits) => Ok(SqlValue::Real(bits)),
        SqlValue::Boolean(b) => Ok(SqlValue::Integer(bool_int(b))),
        SqlValue::Text(t) => arithmetic_prefix(f, t),
        SqlValue::Null => Ok(SqlValue::Null),
        SqlValue::Blob(b) => arithmetic_prefix(f, lossy_text(b)),
    }
}

/// Reads a value as a number.
pub fn coerce_arithmetic_value(facts: &RealFacts, v: &DbValue) -> (r: Eval<DbValue>)
    ensures
        stop_view(r) == number_of(facts@, v@),
        r matches Ok(n) ==> n is Integer || n is Real || n is Null,
{
    match v {
        DbValue::Integer(i) => Ok(DbValue::Integer(*i)),
        DbValue::Real(bits) => Ok(DbValue::Real(*bits)),
        DbValue::Boolean(b) => Ok(DbValue::Integer(int_of_bool(*b))),
        DbValue::Text(t) => sqlite_text_arithmetic_prefix(facts, t.as_str()),
        DbValue::Null => Ok(DbValue::Null),
        DbValue::Blob(b) => sqlite_text_arithmetic_prefix(facts, lossy(b.as_slice()).as_str()),
    }
}

/// A number as a real.
pub open spec fn number_real(f: Facts, v: SqlValue) -> Result<u64, StopView> {
    match v {
        SqlValue::Integer(i) => real_of_int(f, i),
        SqlValue::Real(bits) => Ok(bits),
        _ => Ok(0),
    }
}

/// A number as a real.
pub fn real_from_numeric_value(facts: &RealFacts, v: &DbValue) -> (r: Eval<u64>)
    ensures
        plain_view(r) == number_real(facts@, v@),
{
    match v {
        DbValue::Integer(i) => facts.of_int(*i),
        DbValue::Real(bits) => Ok(*bits),
        _ => Ok(0),
    }
}

/// The result of an operator on reals.
pub open spec fn real_combined(
    f: Facts,
    op: RealOp,
    a: Result<u64, StopView>,
    b: Result<u64, StopView>,
) -> Result<SqlValue, StopView> {
    match (a, b) {
        (Err(s), _) => Err(s),
        (_, Err(s)) => Err(s),
        (Ok(x), Ok(y)) => match real_answer(f, op, x, y) {
            Ok(bits) => Ok(SqlValue::Real(bits)),
            Err(s) => Err(s),
        },
    }
}

/// The operator on reals that goes with one on integers.
pub open spec fn real_op(op: ScalarBinaryOp) -> RealOp {
    match op {
        ScalarBinaryOp::Subtract => RealOp::Subtract,
        ScalarBinaryOp::Multiply => RealOp::Multiply,
        _ => RealOp::Add,
    }
}

/// The result of an operator on integers.
pub open spec fn int_combined(op: ScalarBinaryOp, a: int, b: int) -> int {
    match op {
        ScalarBinaryOp::Subtract => a - b,
        ScalarBinaryOp::Multiply => a * b,
        _ => a + b,
    }
}

/// Adding, subtracting and multiplying: on integers where the result fits, on reals
/// otherwise.
pub open spec fn combined(f: Facts, op: ScalarBinaryOp, a: SqlValue, b: SqlValue) -> Result<
    SqlValue,
    StopView,
> {
    if a is Null || b is Null {
        Ok(SqlValue::Null)
    } else {
        match (number_of(f, a), number_of(f, b)) {
            (Err(s), _) => Err(s),
            (_, Err(s)) => Err(s),
            (Ok(x), Ok(y)) => match (x, y) {
                (SqlValue::Integer(i), SqlValue::Integer(j)) => if i64::MIN <= int_combined(
                    op,
                    i as int,
                    j as int,
                ) <= i64::MAX {
                    Ok(SqlValue::Integer(int_combined(op, i as int, j as int) as i64))
                } else {
                    real_combined(f, real_op(op), real_of_int(f, i), real_of_int(f, j))
                },
                _ => real_combined(f, real_op(op), number_real(f, x), number_real(f, y)),
            },
        }
    }
}

fn combine_ints(op: ScalarBinaryOp, a: i64, b: i64) -> (r: Option<i64>)
    ensures
        r == if i64::MIN <= int_combined(op, a as int, b as int) <= i64::MAX {
            Some(int_combined(op, a as int, b as int) as i64)
        } else {
            None
        },
{
    let n: i128 = match op {
        ScalarBinaryOp::Subtract => a as i128 - b as i128,
        ScalarBinaryOp::Multiply => {
            proof {
                let x = a as int;
                let y = b as int;
                assert(-0x8000_0000_0000_0000 * 0x8000_0000_0000_0000 <= x * y
                    <= 0x8000_0000_0000_0000 * 0x8000_0000_0000_0000) by (nonlinear_arith)
                    requires
                        -0x8000_0000_0000_0000 <= x <= 0x8000_0000_0000_0000,
                        -0x8000_0000_0000_0000 <= y <= 0x8000_0000_0000_0000,
                ;
            }
            a as i128 * b as i128
        },
        _ => a as i128 + b as i128,
    };
    if i64::MIN as i128 <= n && n <= i64::MAX as i128 {
        Some(n as i64)
    } else {
        None
    }
}

fn real_op_of(op: ScalarBinaryOp) -> (r: RealOp)
    ensures
        r == real_op(op),
{
    match op {
        ScalarBinaryOp::Subtract => RealOp::Subtract,
        ScalarBinaryOp::Multiply => RealOp::Multiply,
        _ => RealOp::Add,
    }
}

/// Adding, subtracting and multiplying.
pub fn numeric_binary_op(facts: &RealFacts, op: ScalarBinaryOp, a: &DbValue, b: &DbValue) -> (r:
    Eval<DbValue>)
    ensures
        stop_view(r) == combined(facts@, op, a@, b@),
{
    match (a, b) {
        (DbValue::Null, _) => {
            return Ok(DbValue::Null);
        },
        (_, DbValue::Null) => {
            return Ok(DbValue::Null);
        },
        _ => {},
    }
    let x = coerce_arithmetic_value(facts, a)?;
    let y = coerce_arithmetic_value(facts, b)?;
    if let (DbValue::Integer(i), DbValue::Integer(j)) = (&x, &y) {
        if let Some(n) = combine_ints(op, *i, *j) {
            return Ok(DbValue::Integer(n));
        }
    }
    let p: u64 = real_from_numeric_value(facts, &x)?;
    let q: u64 = real_from_numeric_value(facts, &y)?;
    let bits: u64 = facts.real_result(real_op_of(op), p, q)?;
    Ok(DbValue::Real(bits))
}

/// Whether a number is zero.
pub open spec fn number_is_zero(v: SqlValue) -> bool {
    match v {
        SqlValue::Integer(i) => i == 0,
        SqlValue::Real(bits) => is_zero(bits),
        _ => false,
    }
}

fn zero(v: &DbValue) -> (r: bool)
    ensures
        r == number_is_zero(v@),
{
    match v {
        DbValue::Integer(i) => *i == 0,
        DbValue::Real(bits) => abs_bits(*bits) == 0,
        _ => false,
    }
}

/// Dividing: null by zero, on integers cut towards zero.
pub open spec fn quotient_of(f: Facts, a: SqlValue, b: SqlValue) -> Result<SqlValue, StopView> {
    match (number_of(f, a), number_of(f, b)) {
        (Err(s), _) => Err(s),
        (_, Err(s)) => Err(s),
        (Ok(x), Ok(y)) => if x is Null || y is Null || number_is_zero(y) {
            Ok(SqlValue::Null)
        } else {
            match (x, y) {
                (SqlValue::Integer(i), SqlValue::Integer(j)) => if i == i64::MIN && j == -1 {
                    real_combined(f, RealOp::Divide, real_of_int(f, i), Ok(MINUS_ONE))
                } else {
                    Ok(SqlValue::Integer(quotient(i as int, j as int) as i64))
                },
                _ => real_combined(f, RealOp::Divide, number_real(f, x), number_real(f, y)),
            }
        },
    }
}

fn divide(facts: &RealFacts, a: &DbValue, b: &DbValue) -> (r: Eval<DbValue>)
    ensures
        stop_view(r) == quotient_of(facts@, a@, b@),
{
    let x = coerce_arithmetic_value(facts, a)?;
    let y = coerce_arithmetic_value(facts, b)?;
    match (&x, &y) {
        (DbValue::Null, _) => {
            return Ok(DbValue::Null);
        },
        (_, DbValue::Null) => {
            return Ok(DbValue::Null);
        },
        _ => {},
    }
    if zero(&y) {
        return Ok(DbValue::Null);
    }
    if let (DbValue::Integer(i), DbValue::Integer(j)) = (&x, &y) {
        if *i == i64::MIN && *j == -1 {
            let p: u64 = facts.of_int(*i)?;
            let bits: u64 = facts.real_result(RealOp::Divide, p, MINUS_ONE)?;
            return Ok(DbValue::Real(bits));
        }
        return Ok(DbValue::Integer(divided(*i, *j)));
    }
    let p: u64 = real_from_numeric_value(facts, &x)?;
    let q: u64 = real_from_numeric_value(facts, &y)?;
    let bits: u64 = facts.real_result(RealOp::Divide, p, q)?;
    Ok(DbValue::Real(bits))
}

/// The remainder: null by zero, with the sign of the dividend; a real where one of the
/// numbers is one.
pub open spec fn remainder_of(f: Facts, a: SqlValue, b: SqlValue) -> Result<SqlValue, StopView> {
    match (number_of(f, a), number_of(f, b)) {
        (Err(s), _) => Err(s),
        (_, Err(s)) => Err(s),
        (Ok(x), Ok(y)) => if x is Null || y is Null || number_is_zero(y) {
            Ok(SqlValue::Null)
        } else {
            match (x, y) {
                (SqlValue::Integer(i), SqlValue::Integer(j)) => Ok(
                    SqlValue::Integer(remainder(i as int, j as int) as i64),
                ),
                _ => match (number_real(f, x), number_real(f, y)) {
                    (Err(s), _) => Err(s),
                    (Ok(p), q) => match int_of_real(f, p) {
                        Err(s) => Err(s),
                        Ok(i) => match q {
                            Err(s) => Err(s),
                            Ok(q) => match int_of_real(f, q) {
                                Err(s) => Err(s),
                                Ok(j) => if j == 0 {
                                    Ok(SqlValue::Null)
                                } else {
                                    match real_of_int(f, remainder(i as int, j as int) as i64) {
                                        Ok(bits) => Ok(SqlValue::Real(bits)),
                                        Err(s) => Err(s),
                                    }
                                },
                            },
                        },
                    },
                },
            }
        },
    }
}

fn modulo(facts: &RealFacts, a: &DbValue, b: &DbValue) -> (r: Eval<DbValue>)
    ensures
        stop_view(r) == remainder_of(facts@, a@, b@),
{
    let x = coerce_arithmetic_value(facts, a)?;
    let y = coerce_arithmetic_value(facts, b)?;
    match (&x, &y) {
        (DbValue::Null, _) => {
            return Ok(DbValue::Null);
        },
        (_, DbValue::Null) => {
            return Ok(DbValue::Null);
        },
        _ => {},
    }
    if zero(&y) {
        return Ok(DbValue::Null);
    }
    if let (DbValue::Integer(i), DbValue::Integer(j)) = (&x, &y) {
        return Ok(DbValue::Integer(rest_of(*i, *j)));
    }
    let p: u64 = real_from_numeric_value(facts, &x)?;
    let i: i64 = facts.to_int(p)?;
    let q: u64 = real_from_numeric_value(facts, &y)?;
    let j: i64 = facts.to_int(q)?;
    if j == 0 {
        return Ok(DbValue::Null);
    }
    let bits: u64 = facts.of_int(rest_of(i, j))?;
    Ok(DbValue::Real(bits))
}

/// A value read as an integer; null counts as zero.
pub open spec fn integer_of(f: Facts, v: SqlValue) -> Result<i64, StopView> {
    match cast_to_integer(f, v) {
        Ok(SqlValue::Integer(i)) => Ok(i),
        Ok(_) => Ok(0),
        Err(s) => Err(s),
    }
}

/// Reads a value as an integer.
pub fn sqlite_bitwise_integer_arg(facts: &RealFacts, v: &DbValue) -> (r: Eval<i64>)
    ensures
        plain_view(r) == integer_of(facts@, v@),
{
    match integer_cast(facts, v)? {
        DbValue::Integer(i) => Ok(i),
        _ => Ok(0),
    }
}

/// Whether an operator works bit by bit or shifts.
pub open spec fn shifted(left: i64, right: i64, to_left: bool) -> i64 {
    let leftwards = if right < 0 {
        !to_left
    } else {
        to_left
    };
    let amount = size_of_int(right as int);
    if amount >= 64 {
        if leftwards || left >= 0 {
            0
        } else {
            (-1) as i64
        }
    } else if leftwards {
        left << (amount as u32)
    } else {
        left >> (amount as u32)
    }
}

fn shift(left: i64, right: i64, to_left: bool) -> (r: i64)
    ensures
        r == shifted(left, right, to_left),
{
    let leftwards = if right < 0 {
        !to_left
    } else {
        to_left
    };
    let amount: u64 = unsigned(right);
    if amount >= 64 {
        if leftwards || left >= 0 {
            0
        } else {
            -1
        }
    } else if leftwards {
        left << (amount as u32)
    } else {
        left >> (amount as u32)
    }
}

/// The result of an operator on bits.
pub open spec fn bits_combined(op: ScalarBinaryOp, a: i64, b: i64) -> i64 {
    match op {
        ScalarBinaryOp::BitAnd => a & b,
        ScalarBinaryOp::BitOr => a | b,
        ScalarBinaryOp::ShiftLeft => shifted(a, b, true),
        _ => shifted(a, b, false),
    }
}

/// An operator on bits, null where a value is.
pub open spec fn bitwise(f: Facts, op: ScalarBinaryOp, a: SqlValue, b: SqlValue) -> Result<
    SqlValue,
    StopView,
> {
    if a is Null || b is Null {
        Ok(SqlValue::Null)
    } else {
        match (integer_of(f, a), integer_of(f, b)) {
            (Err(s), _) => Err(s),
            (_, Err(s)) => Err(s),
            (Ok(x), Ok(y)) => Ok(SqlValue::Integer(bits_combined(op, x, y))),
        }
    }
}

/// An operator on bits.
pub fn bitwise_binary_op(facts: &RealFacts, op: ScalarBinaryOp, a: &DbValue, b: &DbValue) -> (r:
    Eval<DbValue>)
    ensures
        stop_view(r) == bitwise(facts@, op, a@, b@),
{
    match (a, b) {
        (DbValue::Null, _) => {
            return Ok(DbValue::Null);
        },
        (_, DbValue::Null) => {
            return Ok(DbValue::Null);
        },
        _ => {},
    }
    let x: i64 = sqlite_bitwise_integer_arg(facts, a)?;
    let y: i64 = sqlite_bitwise_integer_arg(facts, b)?;
    Ok(
        DbValue::Integer(
            match op {
                ScalarBinaryOp::BitAnd => x & y,
                ScalarBinaryOp::BitOr => x | y,
                ScalarBinaryOp::ShiftLeft => shift(x, y, true),
                _ => shift(x, y, false),
            },
        ),
    )
}

/// Two values written behind each other, null where one is.
pub open spec fn concatenated(f: Facts, a: SqlValue, b: SqlValue) -> Result<SqlValue, StopView> {
    if a is Null || b is Null {
        Ok(SqlValue::Null)
    } else {
        match (value_text(f, a), value_text(f, b)) {
            (Err(s), _) => Err(s),
            (_, Err(s)) => Err(s),
            (Ok(x), Ok(y)) => Ok(SqlValue::Text(x + y)),
        }
    }
}

/// Writes two values behind each other.
pub fn concat(facts: &RealFacts, a: &DbValue, b: &DbValue) -> (r: Eval<DbValue>)
    ensures
        stop_view(r) == concatenated(facts@, a@, b@),
{
    match (a, b) {
        (DbValue::Null, _) => {
            return Ok(DbValue::Null);
        },
        (_, DbValue::Null) => {
            return Ok(DbValue::Null);
        },
        _ => {},
    }
    let x = coerce_text_like_value(facts, a)?;
    let y = coerce_text_like_value(facts, b)?;
    Ok(DbValue::Text(joined(x.as_str(), y.as_str())))
}

/// The result of an operator other than those on JSON.
pub open spec fn operated(f: Facts, op: ScalarBinaryOp, a: SqlValue, b: SqlValue) -> Result<
    SqlValue,
    StopView,
> {
    match op {
        ScalarBinaryOp::Add | ScalarBinaryOp::Subtract | ScalarBinaryOp::Multiply => combined(
            f,
            op,
            a,
            b,
        ),
        ScalarBinaryOp::Divide => quotient_of(f, a, b),
        ScalarBinaryOp::Modulo => remainder_of(f, a, b),
        ScalarBinaryOp::Concat => concatenated(f, a, b),
        _ => bitwise(f, op, a, b),
    }
}

/// Evaluates an operator other than those on JSON.
pub fn evaluate_operator(facts: &RealFacts, op: ScalarBinaryOp, a: &DbValue, b: &DbValue) -> (r:
    Eval<DbValue>)
    ensures
        stop_view(r) == operated(facts@, op, a@, b@),
{
    match op {
        ScalarBinaryOp::Add | ScalarBinaryOp::Subtract | ScalarBinaryOp::Multiply => {
            numeric_binary_op(facts, op, a, b)
        },
        ScalarBinaryOp::Divide => divide(facts, a, b),
        ScalarBinaryOp::Modulo => modulo(facts, a, b),
        ScalarBinaryOp::Concat => concat(facts, a, b),
        _ => bitwise_binary_op(facts, op, a, b),
    }
}

// ---------------------------------------------------------------------------
// Mathematical functions

/// The argument of a mathematical function: nothing where the value is no number.
pub open spec fn math_argument(f: Facts, v: SqlValue) -> Result<Option<u64>, StopView> {
    match v {
        SqlValue::Null => Ok(None),
        SqlValue::Integer(i) => match real_of_int(f, i) {
            Ok(bits) => Ok(Some(bits)),
            Err(s) => Err(s),
        },
        SqlValue::Real(bits) => Ok(Some(bits)),
        SqlValue::Boolean(b) => Ok(Some(bool_real(b))),
        SqlValue::Text(t) => if trimmed(t).len() == 0 {
            Ok(None)
        } else {
            parsed_real(f, trimmed(t))
        },
        SqlValue::Blob(_) => Ok(None),
    }
}

/// The argument of a mathematical function.
pub fn sqlite_math_arg(facts: &RealFacts, v: &DbValue) -> (r: Eval<Option<u64>>)
    ensures
        plain_view(r) == math_argument(facts@, v@),
{
    match v {
        DbValue::Null => Ok(None),
        DbValue::Integer(i) => {
            let bits: u64 = facts.of_int(*i)?;
            Ok(Some(bits))
        },
        DbValue::Real(bits) => Ok(Some(*bits)),
        DbValue::Boolean(b) => Ok(Some(real_of_bool(*b))),
        DbValue::Text(t) => {
            let t = trim(t.as_str());
            let c = char_vec(t.as_str());
            if c.len() == 0 {
                return Ok(None);
            }
            facts.parse(t)
        },
        DbValue::Blob(_) => Ok(None),
    }
}

/// Whether a function of one number has a value there.
pub open spec fn in_domain(op: RealOp, x: u64) -> bool {
    match op {
        RealOp::Sqrt => !real_below(x, 0),
        RealOp::Acos | RealOp::Asin => !crate::sqlite3::reals::is_nan(x) && !real_below(
            x,
            MINUS_ONE,
        ) && !real_below(ONE, x),
        RealOp::Acosh => !real_below(x, ONE),
        RealOp::Atanh => !(real_below(x, MINUS_ONE) || real_same(x, MINUS_ONE) || real_below(
            ONE,
            x,
        ) || real_same(x, ONE)),
        RealOp::Ln | RealOp::Log10 | RealOp::Log2 => !(real_below(x, 0) || real_same(x, 0)),
        _ => true,
    }
}

fn domain_has(op: RealOp, x: u64) -> (r: bool)
    ensures
        r == in_domain(op, x),
{
    match op {
        RealOp::Sqrt => !below(x, 0),
        RealOp::Acos | RealOp::Asin => abs_bits(x) <= crate::sqlite3::reals::INFINITY && !below(
            x,
            MINUS_ONE,
        ) && !below(ONE, x),
        RealOp::Acosh => !below(x, ONE),
        RealOp::Atanh => !(below(x, MINUS_ONE) || equal(x, MINUS_ONE) || below(ONE, x) || equal(
            x,
            ONE,
        )),
        RealOp::Ln | RealOp::Log10 | RealOp::Log2 => !(below(x, 0) || equal(x, 0)),
        _ => true,
    }
}

/// A function of one number: null where it has no value.
pub open spec fn unary_math(f: Facts, op: RealOp, v: SqlValue) -> Result<SqlValue, StopView> {
    match math_argument(f, v) {
        Err(s) => Err(s),
        Ok(None) => Ok(SqlValue::Null),
        Ok(Some(x)) => if in_domain(op, x) {
            match real_answer(f, op, x, 0) {
                Ok(bits) => Ok(SqlValue::Real(bits)),
                Err(s) => Err(s),
            }
        } else {
            Ok(SqlValue::Null)
        },
    }
}

/// A function of one number.
pub fn sqlite_unary_math_function(facts: &RealFacts, op: RealOp, v: &DbValue) -> (r: Eval<DbValue>)
    ensures
        stop_view(r) == unary_math(facts@, op, v@),
{
    match sqlite_math_arg(facts, v)? {
        None => Ok(DbValue::Null),
        Some(x) => {
            if domain_has(op, x) {
                let bits: u64 = facts.real_result(op, x, 0)?;
                Ok(DbValue::Real(bits))
            } else {
                Ok(DbValue::Null)
            }
        },
    }
}

/// Whether a function of two numbers has a value there. A logarithm is given its base first.
pub open spec fn in_domain_of_two(op: RealOp, x: u64, y: u64) -> bool {
    match op {
        RealOp::Logarithm => !(real_below(x, 0) || real_same(x, 0) || real_below(y, 0)
            || real_same(y, 0) || real_same(x, ONE)),
        RealOp::Remainder => !real_same(y, 0),
        _ => true,
    }
}

/// A function of two numbers: null where it has no value.
pub open spec fn binary_math(f: Facts, op: RealOp, a: SqlValue, b: SqlValue) -> Result<
    SqlValue,
    StopView,
> {
    match math_argument(f, a) {
        Err(s) => Err(s),
        Ok(None) => Ok(SqlValue::Null),
        Ok(Some(x)) => match math_argument(f, b) {
            Err(s) => Err(s),
            Ok(None) => Ok(SqlValue::Null),
            Ok(Some(y)) => if in_domain_of_two(op, x, y) {
                let result = if op is Logarithm {
                    real_answer(f, op, y, x)
                } else {
                    real_answer(f, op, x, y)
                };
                match result {
                    Ok(bits) => Ok(SqlValue::Real(bits)),
                    Err(s) => Err(s),
                }
            } else {
                Ok(SqlValue::Null)
            },
        },
    }
}

/// A function of two numbers.
pub fn sqlite_binary_math_function(facts: &RealFacts, op: RealOp, a: &DbValue, b: &DbValue) -> (r:
    Eval<DbValue>)
    ensures
        stop_view(r) == binary_math(facts@, op, a@, b@),
{
    let x: u64 = match sqlite_math_arg(facts, a)? {
        None => {
            return Ok(DbValue::Null);
        },
        Some(x) => x,
    };
    let y: u64 = match sqlite_math_arg(facts, b)? {
        None => {
            return Ok(DbValue::Null);
        },
        Some(y) => y,
    };
    let bits: u64 = match op {
        RealOp::Logarithm => {
            if below(x, 0) || equal(x, 0) || below(y, 0) || equal(y, 0) || equal(x, ONE) {
                return Ok(DbValue::Null);
            }
            facts.real_result(op, y, x)?
        },
        RealOp::Remainder => {
            if equal(y, 0) {
                return Ok(DbValue::Null);
            }
            facts.real_result(op, x, y)?
        },
        _ => facts.real_result(op, x, y)?,
    };
    Ok(DbValue::Real(bits))
}

// ---------------------------------------------------------------------------
// Lists

/// Whether a value stands in a list from a position on; null where that is not known.
pub open spec fn listed_from(
    f: Facts,
    v: SqlValue,
    list: Seq<SqlValue>,
    negated: bool,
    i: int,
    saw_null: bool,
) -> Result<SqlValue, StopView>
    decreases list.len() - i,
{
    if i < 0 || i >= list.len() {
        if saw_null {
            Ok(SqlValue::Null)
        } else {
            Ok(SqlValue::Boolean(negated))
        }
    } else if list[i] is Null {
        listed_from(f, v, list, negated, i + 1, true)
    } else {
        match compared(f, v, CompareOp::Eq, list[i]) {
            Err(s) => Err(s),
            Ok(true) => Ok(SqlValue::Boolean(!negated)),
            Ok(false) => listed_from(f, v, list, negated, i + 1, saw_null),
        }
    }
}

/// Whether a value stands in a list.
pub open spec fn listed(f: Facts, v: SqlValue, list: Seq<SqlValue>, negated: bool) -> Result<
    SqlValue,
    StopView,
> {
    if v is Null {
        Ok(SqlValue::Null)
    } else {
        listed_from(f, v, list, negated, 0, false)
    }
}

/// Whether a value stands in a list.
pub fn in_result_value(facts: &RealFacts, v: &DbValue, list: &Vec<DbValue>, negated: bool) -> (r:
    Eval<DbValue>)
    ensures
        stop_view(r) == listed(facts@, v@, list.deep_view(), negated),
{
    if let DbValue::Null = v {
        return Ok(DbValue::Null);
    }
    let mut saw_null = false;
    let mut i: usize = 0;
    while i < list.len()
        invariant
            i <= list@.len(),
            !(v@ is Null),
            listed_from(facts@, v@, list.deep_view(), negated, i as int, saw_null) == listed(
                facts@,
                v@,
                list.deep_view(),
                negated,
            ),
        decreases list@.len() - i,
    {
        assert(list.deep_view()[i as int] == list@[i as int]@);
        match &list[i] {
            DbValue::Null => {
                saw_null = true;
            },
            candidate => {
                if compare_with_operator(facts, v, CompareOp::Eq, candidate)? {
                    return Ok(DbValue::Boolean(!negated));
                }
            },
        }
        i = i + 1;
    }
    if saw_null {
        Ok(DbValue::Null)
    } else {
        Ok(DbValue::Boolean(negated))
    }
}

/// The best of some values and those from a position on: the last of the smallest, or the
/// first of the largest.
pub open spec fn best_from(f: Facts, args: Seq<SqlValue>, least: bool, i: int, best: SqlValue) -> Result<
    SqlValue,
    StopView,
>
    decreases args.len() - i,
{
    if i < 0 || i >= args.len() {
        Ok(best)
    } else {
        match value_order(f, args[i], best) {
            Err(s) => Err(s),
            Ok(o) => if (least && !(o is Greater)) || (!least && o is Greater) {
                best_from(f, args, least, i + 1, args[i])
            } else {
                best_from(f, args, least, i + 1, best)
            },
        }
    }
}

/// Whether a null stands among values from a position on.
pub open spec fn null_from(args: Seq<SqlValue>, i: int) -> bool
    decreases args.len() - i,
{
    if i < 0 || i >= args.len() {
        false
    } else {
        args[i] is Null || null_from(args, i + 1)
    }
}

/// The smallest or the largest of some values; null where one of them is.
pub open spec fn extreme(f: Facts, args: Seq<SqlValue>, least: bool) -> Result<SqlValue, StopView> {
    if null_from(args, 0) {
        Ok(SqlValue::Null)
    } else {
        match best_from(f, args, least, 1, args[0]) {
            Err(s) => Err(s),
            Ok(SqlValue::Boolean(b)) => Ok(SqlValue::Integer(bool_int(b))),
            Ok(v) => Ok(v),
        }
    }
}

/// The smallest or the largest of some values.
pub fn evaluate_min_max_scalar_function(facts: &RealFacts, args: &Vec<DbValue>, least: bool) -> (r:
    Eval<DbValue>)
    requires
        args@.len() > 0,
    ensures
        stop_view(r) == extreme(facts@, args.deep_view(), least),
{
    let mut i: usize = 0;
    while i < args.len()
        invariant
            i <= args@.len(),
            null_from(args.deep_view(), i as int) == null_from(args.deep_view(), 0),
        decreases args@.len() - i,
    {
        assert(args.deep_view()[i as int] == args@[i as int]@);
        if let DbValue::Null = &args[i] {
            return Ok(DbValue::Null);
        }
        i = i + 1;
    }
    let mut at: usize = 0;
    let mut k: usize = 1;
    while k < args.len()
        invariant
            1 <= k <= args@.len(),
            at < args@.len(),
            best_from(facts@, args.deep_view(), least, k as int, args@[at as int]@) == best_from(
                facts@,
                args.deep_view(),
                least,
                1,
                args.deep_view()[0],
            ),
            !null_from(args.deep_view(), 0),
        decreases args@.len() - k,
    {
        assert(args.deep_view()[k as int] == args@[k as int]@);
        let order = order_values(facts, &args[k], &args[at])?;
        let better = match order {
            Order::Greater => !least,
            _ => least,
        };
        if better {
            at = k;
        }
        k = k + 1;
    }
    match &args[at] {
        DbValue::Boolean(b) => Ok(DbValue::Integer(int_of_bool(*b))),
        v => Ok(v.copy()),
    }
}

} // verus!
