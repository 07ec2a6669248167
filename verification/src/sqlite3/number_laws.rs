//! What the functions on reals ask for, and how texts are read as numbers.

use vstd::prelude::*;

use crate::common::text::{int_text, nat_text};
use crate::common::value::SqlValue;
use crate::sqlite3::arithmetic::number_of;
use crate::sqlite3::expression_laws::answers;
use crate::sqlite3::functions::ScalarFunc;
use crate::sqlite3::number_functions::storage_class;
use crate::sqlite3::reals::{
    int_bits, is_finite, real_answer, real_below, real_same, Facts, RealOp, StopView, MINUS_ONE,
    ONE,
};
use crate::sqlite3::strings::{i64_of, is_blank, is_digit, trimmed_start};
use crate::sqlite3::text_laws::{law_texts_of_integers_read_back, lemma_nat_text};
use crate::sqlite3::values::{digits_end, exponent_end, integer_prefix, number_prefix};

verus! {

/// Whether a function of one real gives what one operation on it gives.
pub open spec fn works_as(f: Facts, func: ScalarFunc, op: RealOp, x: u64, r: u64, cased: bool) -> bool {
    real_answer(f, op, x, 0) == Ok::<_, StopView>(r) ==> answers(
        f,
        func,
        seq![SqlValue::Real(x)],
        cased,
        SqlValue::Real(r),
    )
}

/// Each function of one real that is defined for all reals gives what its operation gives.
pub proof fn law_functions_of_reals(f: Facts, x: u64, r: u64, cased: bool)
    ensures
        works_as(f, ScalarFunc::Exp, RealOp::Exp, x, r, cased),
        works_as(f, ScalarFunc::Sin, RealOp::Sin, x, r, cased),
        works_as(f, ScalarFunc::Cos, RealOp::Cos, x, r, cased),
        works_as(f, ScalarFunc::Tan, RealOp::Tan, x, r, cased),
        works_as(f, ScalarFunc::Sinh, RealOp::Sinh, x, r, cased),
        works_as(f, ScalarFunc::Cosh, RealOp::Cosh, x, r, cased),
        works_as(f, ScalarFunc::Tanh, RealOp::Tanh, x, r, cased),
        works_as(f, ScalarFunc::Atan, RealOp::Atan, x, r, cased),
        works_as(f, ScalarFunc::Asinh, RealOp::Asinh, x, r, cased),
        works_as(f, ScalarFunc::Degrees, RealOp::Degrees, x, r, cased),
        works_as(f, ScalarFunc::Radians, RealOp::Radians, x, r, cased),
        works_as(f, ScalarFunc::Ceil, RealOp::Ceil, x, r, cased),
        works_as(f, ScalarFunc::Ceiling, RealOp::Ceil, x, r, cased),
        works_as(f, ScalarFunc::Floor, RealOp::Floor, x, r, cased),
        works_as(f, ScalarFunc::Trunc, RealOp::Truncate, x, r, cased),
{
}

/// A function that is defined for some reals only gives what its operation gives for those, and
/// nothing for the others: roots of negative numbers, logarithms of numbers that are not above
/// zero, and angles of numbers that no angle has.
pub proof fn law_functions_of_some_reals(f: Facts, x: u64, r: u64, cased: bool)
    requires
        is_finite(x),
    ensures
        ({
            let args = seq![SqlValue::Real(x)];
            let (negative, zero) = (real_below(x, 0), real_same(x, 0));
            let outside = real_below(x, MINUS_ONE) || real_below(ONE, x);
            let at_end = real_same(x, MINUS_ONE) || real_same(x, ONE);
            &&& if negative {
                answers(f, ScalarFunc::Sqrt, args, cased, SqlValue::Null)
            } else {
                works_as(f, ScalarFunc::Sqrt, RealOp::Sqrt, x, r, cased)
            }
            &&& if negative || zero {
                &&& answers(f, ScalarFunc::Ln, args, cased, SqlValue::Null)
                &&& answers(f, ScalarFunc::Log, args, cased, SqlValue::Null)
                &&& answers(f, ScalarFunc::Log10, args, cased, SqlValue::Null)
                &&& answers(f, ScalarFunc::Log2, args, cased, SqlValue::Null)
            } else {
                &&& works_as(f, ScalarFunc::Ln, RealOp::Ln, x, r, cased)
                &&& works_as(f, ScalarFunc::Log, RealOp::Log10, x, r, cased)
                &&& works_as(f, ScalarFunc::Log10, RealOp::Log10, x, r, cased)
                &&& works_as(f, ScalarFunc::Log2, RealOp::Log2, x, r, cased)
            }
            &&& if outside {
                &&& answers(f, ScalarFunc::Acos, args, cased, SqlValue::Null)
                &&& answers(f, ScalarFunc::Asin, args, cased, SqlValue::Null)
            } else {
                &&& works_as(f, ScalarFunc::Acos, RealOp::Acos, x, r, cased)
                &&& works_as(f, ScalarFunc::Asin, RealOp::Asin, x, r, cased)
            }
            &&& if outside || at_end {
                answers(f, ScalarFunc::Atanh, args, cased, SqlValue::Null)
            } else {
                works_as(f, ScalarFunc::Atanh, RealOp::Atanh, x, r, cased)
            }
            &&& if real_below(x, ONE) {
                answers(f, ScalarFunc::Acosh, args, cased, SqlValue::Null)
            } else {
                works_as(f, ScalarFunc::Acosh, RealOp::Acosh, x, r, cased)
            }
        }),
{
}

/// The operations on two reals take them in their order; the base of a logarithm is named first,
/// and a remainder by zero is nothing.
pub proof fn law_functions_of_two_reals(f: Facts, x: u64, y: u64, r: u64, cased: bool)
    requires
        is_finite(x),
        is_finite(y),
    ensures
        ({
            let args = seq![SqlValue::Real(x), SqlValue::Real(y)];
            let v = SqlValue::Real(r);
            &&& real_answer(f, RealOp::Power, x, y) == Ok::<_, StopView>(r) ==> answers(
                f,
                ScalarFunc::Power,
                args,
                cased,
                v,
            )
            &&& real_answer(f, RealOp::Atan2, x, y) == Ok::<_, StopView>(r) ==> answers(
                f,
                ScalarFunc::Atan2,
                args,
                cased,
                v,
            )
            &&& real_same(y, 0) ==> answers(f, ScalarFunc::Mod, args, cased, SqlValue::Null)
            &&& !real_same(y, 0) && real_answer(f, RealOp::Remainder, x, y) == Ok::<_, StopView>(r)
                ==> answers(f, ScalarFunc::Mod, args, cased, v)
            &&& real_below(0, x) && real_below(0, y) && !real_same(x, ONE) && real_answer(
                f,
                RealOp::Logarithm,
                y,
                x,
            ) == Ok::<_, StopView>(r) ==> answers(f, ScalarFunc::Log, args, cased, v)
            &&& real_below(x, 0) || real_below(y, 0) || real_same(x, ONE) ==> answers(
                f,
                ScalarFunc::Log,
                args,
                cased,
                SqlValue::Null,
            )
        }),
{
    let args = seq![SqlValue::Real(x), SqlValue::Real(y)];
    assert(args.len() == 2 && args[0] == SqlValue::Real(x) && args[1] == SqlValue::Real(y));
}

/// A real is rounded to as many decimals as are asked for, and to none where nothing is asked for.
pub proof fn law_reals_are_rounded(f: Facts, x: u64, digits: i64, r: u64, cased: bool)
    requires
        i32::MIN <= digits <= i32::MAX,
    ensures
        real_answer(f, RealOp::RoundTo, x, int_bits(digits)) == Ok::<_, StopView>(r) ==> answers(
            f,
            ScalarFunc::Round,
            seq![SqlValue::Real(x), SqlValue::Integer(digits)],
            cased,
            SqlValue::Real(r),
        ),
        real_answer(f, RealOp::RoundTo, x, int_bits(0)) == Ok::<_, StopView>(r) ==> answers(
            f,
            ScalarFunc::Round,
            seq![SqlValue::Real(x)],
            cased,
            SqlValue::Real(r),
        ),
{
    let args = seq![SqlValue::Real(x), SqlValue::Integer(digits)];
    assert(args.len() == 2 && args[0] == SqlValue::Real(x) && args[1] == SqlValue::Integer(digits));
    let one = seq![SqlValue::Real(x)];
    assert(one.len() == 1 && one[0] == SqlValue::Real(x));
}

// ---------------------------------------------------------------------------
// Texts as numbers

proof fn lemma_digits_end_at(t: Seq<char>, i: int, e: int)
    requires
        0 <= i <= e <= t.len(),
        forall|k: int| i <= k < e ==> is_digit(#[trigger] t[k]),
        e < t.len() ==> !is_digit(t[e]),
    ensures
        digits_end(t, i) == e,
    decreases e - i,
{
    if i < e {
        lemma_digits_end_at(t, i + 1, e);
    }
}

/// A text that begins with an integer counts as it, whatever stands behind it, unless a digit, a
/// point or an exponent does, or its first character counts as blank.
pub proof fn law_texts_count_as_the_integers_they_begin_with(f: Facts, i: i64, rest: Seq<char>)
    requires
        rest.len() > 0 ==> !is_digit(rest[0]) && rest[0] != '.' && rest[0] != 'e' && rest[0] != 'E',
    ensures
        !is_blank(int_text(i as int)[0]) ==> {
            &&& integer_prefix(int_text(i as int) + rest) == i
            &&& number_of(f, SqlValue::Text(int_text(i as int) + rest)) == Ok::<_, StopView>(
                SqlValue::Integer(i),
            )
        },
{
    let head = int_text(i as int);
    let t = head + rest;
    let n = head.len() as int;
    let first = if i < 0 {
        1int
    } else {
        0int
    };
    law_texts_of_integers_read_back(i);
    if i < 0 {
        let digits = nat_text((-(i as int)) as nat);
        lemma_nat_text((-(i as int)) as nat);
        assert(head[0] == '-');
        assert forall|k: int| 1 <= k < n implies is_digit(#[trigger] head[k]) by {
            assert(head[k] == digits[k - 1]);
        }
    } else {
        lemma_nat_text(i as nat);
        assert(is_digit(head[0]));
    }
    assert forall|k: int| first <= k < n implies is_digit(#[trigger] t[k]) by {
        assert(t[k] == head[k]);
        assert(is_digit(head[k]));
    }
    if n < t.len() {
        assert(t[n] == rest[0]);
    }
    lemma_digits_end_at(t, first, n);
    assert(t[0] == head[0]);
    assert(t.take(n) =~= head);
    if !is_blank(head[0]) {
        assert(trimmed_start(t) == t);
        assert(exponent_end(t, n) is None);
        assert(number_prefix(t) == Some((head, false)));
        assert(i64_of(head) == Some(i));
    }
}

/// The kinds of values have different names, but for truth values, which count as integers.
pub proof fn law_kinds_of_values_have_names(v: SqlValue, w: SqlValue)
    ensures
        storage_class(v) == storage_class(w) <==> {
            ||| v is Null && w is Null
            ||| (v is Integer || v is Boolean) && (w is Integer || w is Boolean)
            ||| v is Real && w is Real
            ||| v is Text && w is Text
            ||| v is Blob && w is Blob
        },
{
    reveal_strlit("null");
    reveal_strlit("integer");
    reveal_strlit("real");
    reveal_strlit("text");
    reveal_strlit("blob");
    assert("null"@[0] == 'n' && "integer"@[0] == 'i' && "real"@[0] == 'r' && "text"@[0] == 't'
        && "blob"@[0] == 'b');
}

} // verus!
