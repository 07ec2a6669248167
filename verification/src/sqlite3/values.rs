//! How values are read as text and numbers, compared and combined.

use vstd::prelude::*;
use vstd::utf8::encode_utf8;

use crate::common::bytes::copy_bytes;
use crate::common::ordmap::{Order, OrdKey};
use crate::common::schema::ColumnType;
use crate::common::text::{
    char_vec, compare_text, i64_text, int_text, same_text, text_before, text_of,
};
use crate::common::value::{CompareOp, DbValue, SqlValue};
use crate::sqlite3::reals::{
    abs_bits, equal, int_of_real, int_order, is_finite, is_zero, order_of_ints, parsed_real,
    plain_view, real_answer, real_of_int, real_same, stop_view, text_answer, total_order,
    total_rank, Eval, Facts, RealFacts, RealOp, StopView, INFINITY, MINUS_INFINITY, ONE,
};
use crate::sqlite3::strings::{
    chars_i64, digit, i64_of, is_digit, lossy, lossy_text, text_bytes, trim_start, trimmed_start,
};

verus! {

// ---------------------------------------------------------------------------
// Text

/// How a real is written: with a dot or an exponent in any case.
pub open spec fn real_text(f: Facts, bits: u64) -> Result<Seq<char>, StopView> {
    if bits == INFINITY {
        Ok("Inf"@)
    } else if bits == MINUS_INFINITY {
        Ok("-Inf"@)
    } else {
        match text_answer(f, RealOp::Show, bits, 0) {
            Ok(t) => if t.contains('.') || t.contains('e') || t.contains('E') {
                Ok(t)
            } else {
                Ok(t + ".0"@)
            },
            Err(s) => Err(s),
        }
    }
}

/// How a value is read as text.
pub open spec fn value_text(f: Facts, v: SqlValue) -> Result<Seq<char>, StopView> {
    match v {
        SqlValue::Null => Ok(Seq::empty()),
        SqlValue::Boolean(b) => Ok(
            if b {
                "1"@
            } else {
                "0"@
            },
        ),
        SqlValue::Integer(i) => Ok(int_text(i as int)),
        SqlValue::Real(bits) => real_text(f, bits),
        SqlValue::Blob(bytes) => Ok(lossy_text(bytes)),
        SqlValue::Text(t) => Ok(t),
    }
}

fn has(c: &Vec<char>, x: char) -> (r: bool)
    ensures
        r == c@.contains(x),
{
    crate::sqlite3::strings::has_char(c, x)
}

/// How a real is written.
pub fn sqlite_real_to_text(facts: &RealFacts, bits: u64) -> (r: Eval<String>)
    ensures
        stop_view(r) == real_text(facts@, bits),
{
    if bits == INFINITY {
        return Ok("Inf".to_owned());
    }
    if bits == MINUS_INFINITY {
        return Ok("-Inf".to_owned());
    }
    let mut t = facts.text_result(RealOp::Show, bits, 0)?;
    let c = char_vec(t.as_str());
    if has(&c, '.') || has(&c, 'e') || has(&c, 'E') {
        Ok(t)
    } else {
        t.append(".0");
        Ok(t)
    }
}

/// Reads a value as text.
pub fn coerce_text_like_value(facts: &RealFacts, v: &DbValue) -> (r: Eval<String>)
    ensures
        stop_view(r) == value_text(facts@, v@),
{
    match v {
        DbValue::Null => {
            let r = String::new();
            assert(r@ =~= Seq::<char>::empty());
            Ok(r)
        },
        DbValue::Boolean(b) => {
            if *b {
                Ok("1".to_owned())
            } else {
                Ok("0".to_owned())
            }
        },
        DbValue::Integer(i) => Ok(i64_text(*i)),
        DbValue::Real(bits) => sqlite_real_to_text(facts, *bits),
        DbValue::Blob(bytes) => Ok(lossy(bytes.as_slice())),
        DbValue::Text(t) => Ok(t.clone()),
    }
}

// ---------------------------------------------------------------------------
// Numbers at the start of a text

/// The position of the first character from one on that is no digit.
pub open spec fn digits_end(t: Seq<char>, i: int) -> int
    decreases t.len() - i,
{
    if 0 <= i < t.len() && is_digit(t[i]) {
        digits_end(t, i + 1)
    } else {
        i
    }
}

/// The position of the first character from one on that is no digit.
pub fn skip_digits(c: &Vec<char>, from: usize) -> (r: usize)
    requires
        from <= c@.len(),
    ensures
        r == digits_end(c@, from as int),
        from <= r <= c@.len(),
{
    let mut i: usize = from;
    while i < c.len() && digit(c[i])
        invariant
            from <= i <= c@.len(),
            digits_end(c@, i as int) == digits_end(c@, from as int),
        decreases c@.len() - i,
    {
        i = i + 1;
    }
    i
}

/// Whether a sign stands at a position.
pub open spec fn sign_at(t: Seq<char>, i: int) -> bool {
    0 <= i < t.len() && (t[i] == '+' || t[i] == '-')
}

/// Whether a sign stands at a position.
pub fn is_sign(c: &Vec<char>, i: usize) -> (r: bool)
    ensures
        r == sign_at(c@, i as int),
{
    i < c.len() && (c[i] == '+' || c[i] == '-')
}

/// Whether an exponent with digits starts at a position, and where it ends.
pub open spec fn exponent_end(t: Seq<char>, i: int) -> Option<int> {
    if 0 <= i < t.len() && (t[i] == 'e' || t[i] == 'E') {
        let j = if sign_at(t, i + 1) {
            i + 2
        } else {
            i + 1
        };
        if digits_end(t, j) > j {
            Some(digits_end(t, j))
        } else {
            None
        }
    } else {
        None
    }
}

fn skip_exponent(c: &Vec<char>, i: usize) -> (r: Option<usize>)
    requires
        i <= c@.len(),
    ensures
        match r {
            Some(e) => exponent_end(c@, i as int) == Some(e as int) && i <= e <= c@.len(),
            None => exponent_end(c@, i as int) is None,
        },
{
    if i < c.len() && (c[i] == 'e' || c[i] == 'E') {
        let j: usize = if is_sign(c, i + 1) {
            i + 2
        } else {
            i + 1
        };
        let e: usize = skip_digits(c, j);
        if e > j {
            Some(e)
        } else {
            None
        }
    } else {
        None
    }
}

/// The decimal number at the start of a text behind white space, and whether it is written
/// as a real, with a dot or an exponent.
pub open spec fn number_prefix(s: Seq<char>) -> Option<(Seq<char>, bool)> {
    let t = trimmed_start(s);
    let i = if sign_at(t, 0) {
        1int
    } else {
        0int
    };
    let whole = digits_end(t, i);
    let dot = 0 <= whole < t.len() && t[whole] == '.';
    let end = if dot {
        digits_end(t, whole + 1)
    } else {
        whole
    };
    if end - i - (if dot {
        1int
    } else {
        0int
    }) == 0 {
        None
    } else {
        match exponent_end(t, end) {
            Some(e) => Some((t.take(e), true)),
            None => Some((t.take(end), dot)),
        }
    }
}

/// The decimal number at the start of a text.
pub fn sqlite_numeric_text_prefix(s: &str) -> (r: Option<(String, bool)>)
    ensures
        match r {
            Some((t, dotted)) => number_prefix(s@) == Some((t@, dotted)),
            None => number_prefix(s@) is None,
        },
{
    let t = trim_start(s);
    let c = char_vec(t.as_str());
    let i: usize = if is_sign(&c, 0) {
        1
    } else {
        0
    };
    let whole: usize = skip_digits(&c, i);
    let dot = whole < c.len() && c[whole] == '.';
    let end: usize = if dot {
        skip_digits(&c, whole + 1)
    } else {
        whole
    };
    let marks: usize = if dot {
        1
    } else {
        0
    };
    if end - i - marks == 0 {
        return None;
    }
    match skip_exponent(&c, end) {
        Some(e) => {
            assert(c@.take(e as int) =~= c@.subrange(0, e as int));
            Some((text_of(&c, 0, e), true))
        },
        None => {
            assert(c@.take(end as int) =~= c@.subrange(0, end as int));
            Some((text_of(&c, 0, end), dot))
        },
    }
}

/// The integer at the start of a text, at the limit of the integers where it lies beyond.
pub open spec fn integer_prefix(s: Seq<char>) -> i64 {
    let t = trimmed_start(s);
    let i = if sign_at(t, 0) {
        1int
    } else {
        0int
    };
    let end = digits_end(t, i);
    if end == i {
        0
    } else {
        match i64_of(t.take(end)) {
            Some(n) => n,
            None => if t[0] == '-' {
                i64::MIN
            } else {
                i64::MAX
            },
        }
    }
}

/// The integer at the start of a text.
pub fn sqlite_text_integer_prefix(s: &str) -> (r: i64)
    ensures
        r == integer_prefix(s@),
{
    let t = trim_start(s);
    let c = char_vec(t.as_str());
    let i: usize = if is_sign(&c, 0) {
        1
    } else {
        0
    };
    let end: usize = skip_digits(&c, i);
    if end == i {
        return 0;
    }
    assert(c@.take(end as int) =~= c@.subrange(0, end as int));
    let candidate = text_of(&c, 0, end);
    match chars_i64(&char_vec(candidate.as_str())) {
        Some(n) => n,
        None => {
            if c[0] == '-' {
                i64::MIN
            } else {
                i64::MAX
            }
        },
    }
}

/// The real that a text spells, or zero.
pub open spec fn real_or_zero(f: Facts, t: Seq<char>) -> Result<u64, StopView> {
    match parsed_real(f, t) {
        Ok(Some(bits)) => Ok(bits),
        Ok(None) => Ok(0),
        Err(s) => Err(s),
    }
}

/// The real that a text spells, or zero.
pub fn parse_or_zero(facts: &RealFacts, t: String) -> (r: Eval<u64>)
    ensures
        plain_view(r) == real_or_zero(facts@, t@),
{
    match facts.parse(t)? {
        Some(bits) => Ok(bits),
        None => Ok(0),
    }
}

/// The real at the start of a text.
pub open spec fn real_prefix(f: Facts, s: Seq<char>) -> Result<u64, StopView> {
    match number_prefix(s) {
        Some((t, _)) => real_or_zero(f, t),
        None => Ok(0),
    }
}

/// The real at the start of a text.
pub fn sqlite_text_real_prefix(facts: &RealFacts, s: &str) -> (r: Eval<u64>)
    ensures
        plain_view(r) == real_prefix(facts@, s@),
{
    match sqlite_numeric_text_prefix(s) {
        Some((t, _)) => parse_or_zero(facts, t),
        None => Ok(0),
    }
}

/// The number at the start of a text, for arithmetic.
pub open spec fn arithmetic_prefix(f: Facts, s: Seq<char>) -> Result<SqlValue, StopView> {
    match number_prefix(s) {
        None => Ok(SqlValue::Integer(0)),
        Some((t, dotted)) => if !dotted && i64_of(t) is Some {
            Ok(SqlValue::Integer(i64_of(t)->Some_0))
        } else {
            match real_or_zero(f, t) {
                Ok(bits) => Ok(SqlValue::Real(bits)),
                Err(s) => Err(s),
            }
        },
    }
}

/// The number at the start of a text, for arithmetic.
pub fn sqlite_text_arithmetic_prefix(facts: &RealFacts, s: &str) -> (r: Eval<DbValue>)
    ensures
        stop_view(r) == arithmetic_prefix(facts@, s@),
{
    let (t, real_syntax) = match sqlite_numeric_text_prefix(s) {
        Some(found) => found,
        None => {
            return Ok(DbValue::Integer(0));
        },
    };
    if !real_syntax {
        if let Some(n) = chars_i64(&char_vec(t.as_str())) {
            return Ok(DbValue::Integer(n));
        }
    }
    let bits: u64 = parse_or_zero(facts, t)?;
    Ok(DbValue::Real(bits))
}

/// The bits of the largest real up to which every integer is one.
pub const LARGEST_EXACT: u64 = 0x433F_FFFF_FFFF_FFFF;

/// A real as a number of a column: an integer where it is one exactly.
pub open spec fn settled_number(f: Facts, bits: u64) -> Result<SqlValue, StopView> {
    if !is_finite(bits) {
        Ok(SqlValue::Real(bits))
    } else {
        match real_answer(f, RealOp::Truncate, bits, 0) {
            Err(s) => Err(s),
            Ok(whole) => if real_same(whole, bits) && crate::sqlite3::reals::magnitude_bits(bits)
                <= LARGEST_EXACT {
                match int_of_real(f, bits) {
                    Ok(i) => Ok(SqlValue::Integer(i)),
                    Err(s) => Err(s),
                }
            } else {
                Ok(SqlValue::Real(bits))
            },
        }
    }
}

/// A real as a number of a column.
pub fn settle_number(facts: &RealFacts, bits: u64) -> (r: Eval<DbValue>)
    ensures
        stop_view(r) == settled_number(facts@, bits),
{
    if abs_bits(bits) >= INFINITY {
        return Ok(DbValue::Real(bits));
    }
    let whole: u64 = facts.real_result(RealOp::Truncate, bits, 0)?;
    if equal(whole, bits) && abs_bits(bits) <= LARGEST_EXACT {
        let i: i64 = facts.to_int(bits)?;
        Ok(DbValue::Integer(i))
    } else {
        Ok(DbValue::Real(bits))
    }
}

/// The number at the start of a text, for a numeric column.
pub open spec fn numeric_prefix(f: Facts, s: Seq<char>) -> Result<SqlValue, StopView> {
    match number_prefix(s) {
        None => Ok(SqlValue::Integer(0)),
        Some((t, dotted)) => if !dotted && i64_of(t) is Some {
            Ok(SqlValue::Integer(i64_of(t)->Some_0))
        } else {
            match real_or_zero(f, t) {
                Ok(bits) => settled_number(f, bits),
                Err(s) => Err(s),
            }
        },
    }
}

/// The number at the start of a text, for a numeric column.
pub fn sqlite_text_numeric_prefix(facts: &RealFacts, s: &str) -> (r: Eval<DbValue>)
    ensures
        stop_view(r) == numeric_prefix(facts@, s@),
        r matches Ok(v) ==> v is Integer || v is Real,
{
    let (t, real_syntax) = match sqlite_numeric_text_prefix(s) {
        Some(found) => found,
        None => {
            return Ok(DbValue::Integer(0));
        },
    };
    if !real_syntax {
        if let Some(n) = chars_i64(&char_vec(t.as_str())) {
            return Ok(DbValue::Integer(n));
        }
    }
    let bits: u64 = parse_or_zero(facts, t)?;
    settle_number(facts, bits)
}

// ---------------------------------------------------------------------------
// Truth

/// Whether a number is not zero.
pub open spec fn number_is_true(v: SqlValue) -> bool {
    match v {
        SqlValue::Integer(i) => i != 0,
        SqlValue::Real(bits) => !is_zero(bits),
        _ => false,
    }
}

/// Whether a value counts as true.
pub open spec fn is_true(f: Facts, v: SqlValue) -> Result<bool, StopView> {
    match v {
        SqlValue::Null => Ok(false),
        SqlValue::Integer(i) => Ok(i != 0),
        SqlValue::Real(bits) => Ok(!is_zero(bits)),
        SqlValue::Boolean(b) => Ok(b),
        SqlValue::Text(t) => match numeric_prefix(f, t) {
            Ok(n) => Ok(number_is_true(n)),
            Err(s) => Err(s),
        },
        SqlValue::Blob(bytes) => match numeric_prefix(f, lossy_text(bytes)) {
            Ok(n) => Ok(number_is_true(n)),
            Err(s) => Err(s),
        },
    }
}

fn text_is_true(facts: &RealFacts, t: &str) -> (r: Eval<bool>)
    ensures
        plain_view(r) == match numeric_prefix(facts@, t@) {
            Ok(n) => Ok::<_, StopView>(number_is_true(n)),
            Err(s) => Err(s),
        },
{
    match sqlite_text_numeric_prefix(facts, t)? {
        DbValue::Integer(i) => Ok(i != 0),
        DbValue::Real(bits) => Ok(abs_bits(bits) != 0),
        _ => Ok(false),
    }
}

/// Whether a value counts as true.
pub fn sqlite_is_true_value(facts: &RealFacts, v: &DbValue) -> (r: Eval<bool>)
    ensures
        plain_view(r) == is_true(facts@, v@),
{
    match v {
        DbValue::Null => Ok(false),
        DbValue::Integer(i) => Ok(*i != 0),
        DbValue::Real(bits) => Ok(abs_bits(*bits) != 0),
        DbValue::Boolean(b) => Ok(*b),
        DbValue::Text(t) => text_is_true(facts, t.as_str()),
        DbValue::Blob(bytes) => text_is_true(facts, lossy(bytes.as_slice()).as_str()),
    }
}

/// The negation of a value.
pub open spec fn negation(f: Facts, v: SqlValue) -> Result<SqlValue, StopView> {
    match v {
        SqlValue::Null => Ok(SqlValue::Null),
        _ => match is_true(f, v) {
            Ok(b) => Ok(SqlValue::Boolean(!b)),
            Err(s) => Err(s),
        },
    }
}

/// The negation of a value.
pub fn sqlite_not_value(facts: &RealFacts, v: &DbValue) -> (r: Eval<DbValue>)
    ensures
        stop_view(r) == negation(facts@, v@),
{
    match v {
        DbValue::Null => Ok(DbValue::Null),
        _ => {
            let b = sqlite_is_true_value(facts, v)?;
            Ok(DbValue::Boolean(!b))
        },
    }
}

// ---------------------------------------------------------------------------
// Casts

/// One for true and zero for false.
pub open spec fn bool_int(b: bool) -> i64 {
    if b {
        1
    } else {
        0
    }
}

/// One for true and zero for false.
pub fn int_of_bool(b: bool) -> (r: i64)
    ensures
        r == bool_int(b),
{
    if b {
        1
    } else {
        0
    }
}

/// One for true and zero for false, as a real.
pub open spec fn bool_real(b: bool) -> u64 {
    if b {
        ONE
    } else {
        0
    }
}

/// One for true and zero for false, as a real.
pub fn real_of_bool(b: bool) -> (r: u64)
    ensures
        r == bool_real(b),
{
    if b {
        ONE
    } else {
        0
    }
}

/// A value cast to an integer.
pub open spec fn cast_to_integer(f: Facts, v: SqlValue) -> Result<SqlValue, StopView> {
    match v {
        SqlValue::Null => Ok(SqlValue::Null),
        SqlValue::Boolean(b) => Ok(SqlValue::Integer(bool_int(b))),
        SqlValue::Integer(i) => Ok(SqlValue::Integer(i)),
        SqlValue::Real(bits) => match int_of_real(f, bits) {
            Ok(i) => Ok(SqlValue::Integer(i)),
            Err(s) => Err(s),
        },
        SqlValue::Text(t) => Ok(SqlValue::Integer(integer_prefix(t))),
        SqlValue::Blob(b) => Ok(SqlValue::Integer(integer_prefix(lossy_text(b)))),
    }
}

/// A value cast to a real.
pub open spec fn cast_to_real(f: Facts, v: SqlValue) -> Result<SqlValue, StopView> {
    let bits = match v {
        SqlValue::Null => Ok(0u64),
        SqlValue::Boolean(b) => Ok(bool_real(b)),
        SqlValue::Integer(i) => real_of_int(f, i),
        SqlValue::Real(bits) => Ok(bits),
        SqlValue::Text(t) => real_prefix(f, t),
        SqlValue::Blob(b) => real_prefix(f, lossy_text(b)),
    };
    match bits {
        Err(s) => Err(s),
        Ok(b) => Ok(
            if v is Null {
                SqlValue::Null
            } else {
                SqlValue::Real(b)
            },
        ),
    }
}

/// A value cast to a type.
pub open spec fn cast(f: Facts, v: SqlValue, ty: ColumnType) -> Result<SqlValue, StopView> {
    match ty {
        ColumnType::Boolean => Ok(
            match v {
                SqlValue::Null => SqlValue::Null,
                SqlValue::Boolean(b) => SqlValue::Boolean(b),
                SqlValue::Integer(i) => SqlValue::Boolean(i != 0),
                SqlValue::Real(bits) => SqlValue::Boolean(!is_zero(bits)),
                SqlValue::Text(t) => SqlValue::Boolean(t.len() > 0 && t != "0"@),
                SqlValue::Blob(b) => SqlValue::Boolean(b.len() > 0),
            },
        ),
        ColumnType::Integer => cast_to_integer(f, v),
        ColumnType::Numeric => match v {
            SqlValue::Null => Ok(SqlValue::Null),
            SqlValue::Boolean(b) => Ok(SqlValue::Integer(bool_int(b))),
            SqlValue::Integer(i) => Ok(SqlValue::Integer(i)),
            SqlValue::Real(bits) => Ok(SqlValue::Real(bits)),
            SqlValue::Text(t) => numeric_prefix(f, t),
            SqlValue::Blob(b) => numeric_prefix(f, lossy_text(b)),
        },
        ColumnType::Real => cast_to_real(f, v),
        ColumnType::Text | ColumnType::Any => match v {
            SqlValue::Null => Ok(SqlValue::Null),
            _ => match value_text(f, v) {
                Ok(t) => Ok(SqlValue::Text(t)),
                Err(s) => Err(s),
            },
        },
        ColumnType::Blob => match v {
            SqlValue::Null => Ok(SqlValue::Null),
            SqlValue::Blob(b) => Ok(SqlValue::Blob(b)),
            _ => match value_text(f, v) {
                Ok(t) => Ok(SqlValue::Blob(encode_utf8(t))),
                Err(s) => Err(s),
            },
        },
    }
}

/// Casts a value to an integer.
pub fn integer_cast(facts: &RealFacts, v: &DbValue) -> (r: Eval<DbValue>)
    ensures
        stop_view(r) == cast_to_integer(facts@, v@),
        r matches Ok(x) ==> x is Integer || x is Null,
{
    match v {
        DbValue::Null => Ok(DbValue::Null),
        DbValue::Boolean(b) => Ok(DbValue::Integer(int_of_bool(*b))),
        DbValue::Integer(i) => Ok(DbValue::Integer(*i)),
        DbValue::Real(bits) => {
            let i: i64 = facts.to_int(*bits)?;
            Ok(DbValue::Integer(i))
        },
        DbValue::Text(t) => Ok(DbValue::Integer(sqlite_text_integer_prefix(t.as_str()))),
        DbValue::Blob(b) => Ok(
            DbValue::Integer(sqlite_text_integer_prefix(lossy(b.as_slice()).as_str())),
        ),
    }
}

fn real_cast(facts: &RealFacts, v: &DbValue) -> (r: Eval<DbValue>)
    ensures
        stop_view(r) == cast_to_real(facts@, v@),
{
    match v {
        DbValue::Null => Ok(DbValue::Null),
        DbValue::Boolean(b) => Ok(DbValue::Real(real_of_bool(*b))),
        DbValue::Integer(i) => {
            let bits: u64 = facts.of_int(*i)?;
            Ok(DbValue::Real(bits))
        },
        DbValue::Real(bits) => Ok(DbValue::Real(*bits)),
        DbValue::Text(t) => {
            let bits: u64 = sqlite_text_real_prefix(facts, t.as_str())?;
            Ok(DbValue::Real(bits))
        },
        DbValue::Blob(b) => {
            let bits: u64 = sqlite_text_real_prefix(facts, lossy(b.as_slice()).as_str())?;
            Ok(DbValue::Real(bits))
        },
    }
}

/// Casts a value to a type.
pub fn cast_value(facts: &RealFacts, v: &DbValue, ty: ColumnType) -> (r: Eval<DbValue>)
    ensures
        stop_view(r) == cast(facts@, v@, ty),
{
    match ty {
        ColumnType::Boolean => Ok(
            match v {
                DbValue::Null => DbValue::Null,
                DbValue::Boolean(b) => DbValue::Boolean(*b),
                DbValue::Integer(i) => DbValue::Boolean(*i != 0),
                DbValue::Real(bits) => DbValue::Boolean(abs_bits(*bits) != 0),
                DbValue::Text(t) => {
                    let c = char_vec(t.as_str());
                    DbValue::Boolean(c.len() > 0 && !same_text(t.as_str(), "0"))
                },
                DbValue::Blob(b) => DbValue::Boolean(b.len() > 0),
            },
        ),
        ColumnType::Integer => integer_cast(facts, v),
        ColumnType::Numeric => match v {
            DbValue::Null => Ok(DbValue::Null),
            DbValue::Boolean(b) => Ok(DbValue::Integer(int_of_bool(*b))),
            DbValue::Integer(i) => Ok(DbValue::Integer(*i)),
            DbValue::Real(bits) => Ok(DbValue::Real(*bits)),
            DbValue::Text(t) => sqlite_text_numeric_prefix(facts, t.as_str()),
            DbValue::Blob(b) => sqlite_text_numeric_prefix(facts, lossy(b.as_slice()).as_str()),
        },
        ColumnType::Real => real_cast(facts, v),
        ColumnType::Text | ColumnType::Any => match v {
            DbValue::Null => Ok(DbValue::Null),
            _ => {
                let t = coerce_text_like_value(facts, v)?;
                Ok(DbValue::Text(t))
            },
        },
        ColumnType::Blob => match v {
            DbValue::Null => Ok(DbValue::Null),
            DbValue::Blob(b) => Ok(DbValue::Blob(copy_bytes(b))),
            _ => {
                let t = coerce_text_like_value(facts, v)?;
                Ok(DbValue::Blob(text_bytes(t.as_str())))
            },
        },
    }
}

// ---------------------------------------------------------------------------
// Comparison

/// The order of two truth values.
pub open spec fn bool_order(a: bool, b: bool) -> Order {
    int_order(bool_int(a) as int, bool_int(b) as int)
}

/// The order of two byte strings.
pub open spec fn bytes_order(a: Seq<u8>, b: Seq<u8>) -> Order {
    if a == b {
        Order::Equal
    } else if bytes_before(a, b) {
        Order::Less
    } else {
        Order::Greater
    }
}

/// Whether one byte string stands before another.
pub open spec fn bytes_before(a: Seq<u8>, b: Seq<u8>) -> bool
    decreases a.len(),
{
    if b.len() == 0 {
        false
    } else if a.len() == 0 {
        true
    } else if a[0] != b[0] {
        a[0] < b[0]
    } else {
        bytes_before(a.drop_first(), b.drop_first())
    }
}

/// The order of two texts.
pub open spec fn text_order(a: Seq<char>, b: Seq<char>) -> Order {
    if a == b {
        Order::Equal
    } else if text_before(a, b) {
        Order::Less
    } else {
        Order::Greater
    }
}

/// The class that a value is sorted under.
pub open spec fn class_rank(v: SqlValue) -> int {
    match v {
        SqlValue::Null => 0,
        SqlValue::Boolean(_) | SqlValue::Integer(_) | SqlValue::Real(_) => 1,
        SqlValue::Text(_) => 2,
        SqlValue::Blob(_) => 3,
    }
}

/// The order of two numbers as reals.
pub open spec fn mixed_order(a: Result<u64, StopView>, b: Result<u64, StopView>) -> Result<
    Order,
    StopView,
> {
    match (a, b) {
        (Err(s), _) => Err(s),
        (_, Err(s)) => Err(s),
        (Ok(x), Ok(y)) => Ok(int_order(total_rank(x), total_rank(y))),
    }
}

/// The order of two values of which neither is null.
pub open spec fn value_order(f: Facts, a: SqlValue, b: SqlValue) -> Result<Order, StopView> {
    match (a, b) {
        (SqlValue::Boolean(x), SqlValue::Boolean(y)) => Ok(bool_order(x, y)),
        (SqlValue::Boolean(x), SqlValue::Integer(y)) => Ok(int_order(bool_int(x) as int, y as int)),
        (SqlValue::Integer(x), SqlValue::Boolean(y)) => Ok(int_order(x as int, bool_int(y) as int)),
        (SqlValue::Boolean(x), SqlValue::Real(y)) => mixed_order(Ok(bool_real(x)), Ok(y)),
        (SqlValue::Real(x), SqlValue::Boolean(y)) => mixed_order(Ok(x), Ok(bool_real(y))),
        (SqlValue::Integer(x), SqlValue::Integer(y)) => Ok(int_order(x as int, y as int)),
        (SqlValue::Integer(x), SqlValue::Real(y)) => mixed_order(real_of_int(f, x), Ok(y)),
        (SqlValue::Real(x), SqlValue::Integer(y)) => mixed_order(Ok(x), real_of_int(f, y)),
        (SqlValue::Real(x), SqlValue::Real(y)) => mixed_order(Ok(x), Ok(y)),
        (SqlValue::Blob(x), SqlValue::Blob(y)) => Ok(bytes_order(x, y)),
        (SqlValue::Text(x), SqlValue::Text(y)) => Ok(text_order(x, y)),
        _ => Ok(int_order(class_rank(a), class_rank(b))),
    }
}

/// The order of two values; nothing where one of them is null.
pub open spec fn comparison(f: Facts, a: SqlValue, b: SqlValue) -> Result<
    Option<Order>,
    StopView,
> {
    if a is Null || b is Null {
        Ok(None)
    } else {
        match value_order(f, a, b) {
            Ok(o) => Ok(Some(o)),
            Err(s) => Err(s),
        }
    }
}

fn compare_blobs(a: &Vec<u8>, b: &Vec<u8>) -> (r: Order)
    ensures
        r == bytes_order(a@, b@),
{
    let mut i: usize = 0;
    assert(a@.skip(0) =~= a@ && b@.skip(0) =~= b@);
    while i < a.len() && i < b.len()
        invariant
            i <= a@.len(),
            i <= b@.len(),
            forall|j: int| 0 <= j < i ==> a@[j] == b@[j],
            bytes_before(a@.skip(i as int), b@.skip(i as int)) == bytes_before(a@, b@),
        decreases a@.len() - i,
    {
        if a[i] < b[i] {
            return Order::Less;
        }
        if a[i] > b[i] {
            return Order::Greater;
        }
        assert(a@.skip(i as int).drop_first() =~= a@.skip(i + 1));
        assert(b@.skip(i as int).drop_first() =~= b@.skip(i + 1));
        i = i + 1;
    }
    if a.len() == b.len() {
        assert(a@ =~= b@);
        Order::Equal
    } else if a.len() < b.len() {
        Order::Less
    } else {
        Order::Greater
    }
}

fn compare_texts(a: &String, b: &String) -> (r: Order)
    ensures
        r == text_order(a@, b@),
{
    compare_text(a, b)
}

fn rank_of(v: &DbValue) -> (r: i64)
    ensures
        r == class_rank(v@),
{
    match v {
        DbValue::Null => 0,
        DbValue::Boolean(_) | DbValue::Integer(_) | DbValue::Real(_) => 1,
        DbValue::Text(_) => 2,
        DbValue::Blob(_) => 3,
    }
}

/// The order of two values.
pub fn order_values(facts: &RealFacts, a: &DbValue, b: &DbValue) -> (r: Eval<Order>)
    ensures
        plain_view(r) == value_order(facts@, a@, b@),
{
    match (a, b) {
        (DbValue::Boolean(x), DbValue::Boolean(y)) => Ok(
            order_of_ints(int_of_bool(*x), int_of_bool(*y)),
        ),
        (DbValue::Boolean(x), DbValue::Integer(y)) => Ok(order_of_ints(int_of_bool(*x), *y)),
        (DbValue::Integer(x), DbValue::Boolean(y)) => Ok(order_of_ints(*x, int_of_bool(*y))),
        (DbValue::Boolean(x), DbValue::Real(y)) => Ok(total_order(real_of_bool(*x), *y)),
        (DbValue::Real(x), DbValue::Boolean(y)) => Ok(total_order(*x, real_of_bool(*y))),
        (DbValue::Integer(x), DbValue::Integer(y)) => Ok(order_of_ints(*x, *y)),
        (DbValue::Integer(x), DbValue::Real(y)) => {
            let x: u64 = facts.of_int(*x)?;
            Ok(total_order(x, *y))
        },
        (DbValue::Real(x), DbValue::Integer(y)) => {
            let y: u64 = facts.of_int(*y)?;
            Ok(total_order(*x, y))
        },
        (DbValue::Real(x), DbValue::Real(y)) => Ok(total_order(*x, *y)),
        (DbValue::Blob(x), DbValue::Blob(y)) => Ok(compare_blobs(x, y)),
        (DbValue::Text(x), DbValue::Text(y)) => Ok(compare_texts(x, y)),
        _ => Ok(order_of_ints(rank_of(a), rank_of(b))),
    }
}

/// The order of two values; nothing where one of them is null.
pub fn compare(facts: &RealFacts, a: &DbValue, b: &DbValue) -> (r: Eval<Option<Order>>)
    ensures
        plain_view(r) == comparison(facts@, a@, b@),
{
    match (a, b) {
        (DbValue::Null, _) => Ok(None),
        (_, DbValue::Null) => Ok(None),
        _ => {
            let o = order_values(facts, a, b)?;
            Ok(Some(o))
        },
    }
}

/// Whether an order is what a comparison asks for.
pub open spec fn order_meets(o: Order, op: CompareOp) -> bool {
    match op {
        CompareOp::Eq => o is Equal,
        CompareOp::Ne => !(o is Equal),
        CompareOp::Gt => o is Greater,
        CompareOp::Gte => o is Greater || o is Equal,
        CompareOp::Lt => o is Less,
        CompareOp::Lte => o is Less || o is Equal,
    }
}

/// Whether a comparison holds; it does not where a value is null.
pub open spec fn compared(f: Facts, a: SqlValue, op: CompareOp, b: SqlValue) -> Result<
    bool,
    StopView,
> {
    match comparison(f, a, b) {
        Ok(Some(o)) => Ok(order_meets(o, op)),
        Ok(None) => Ok(false),
        Err(s) => Err(s),
    }
}

/// Whether a comparison holds.
pub fn compare_with_operator(facts: &RealFacts, a: &DbValue, op: CompareOp, b: &DbValue) -> (r:
    Eval<bool>)
    ensures
        plain_view(r) == compared(facts@, a@, op, b@),
{
    match compare(facts, a, b)? {
        None => Ok(false),
        Some(o) => Ok(
            match (op, o) {
                (CompareOp::Eq, Order::Equal) => true,
                (CompareOp::Ne, Order::Equal) => false,
                (CompareOp::Ne, _) => true,
                (CompareOp::Gt, Order::Greater) => true,
                (CompareOp::Gte, Order::Less) => false,
                (CompareOp::Gte, _) => true,
                (CompareOp::Lt, Order::Less) => true,
                (CompareOp::Lte, Order::Greater) => false,
                (CompareOp::Lte, _) => true,
                _ => false,
            },
        ),
    }
}

} // verus!
