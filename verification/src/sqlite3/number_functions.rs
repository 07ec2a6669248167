//! Functions of expressions on numbers and moments.

use vstd::prelude::*;

use crate::common::bytes::zero_vec;
use crate::common::value::{DbValue, SqlValue};
use crate::sqlite3::arithmetic::{number_real, real_from_numeric_value};
use crate::sqlite3::date_format::{
    difference_of, epoch_value, julian_day, sqlite_julianday, sqlite_strftime_minimal,
    sqlite_timediff_between, sqlite_unixepoch, strftime,
};
use crate::sqlite3::dates::{
    date_text, date_time_args_have_subsecond, moment_of_args, parse_date_time_args, push_date,
    push_time, subsecond_from, time_text,
};
use crate::sqlite3::printf::{integer_argument, sqlite_printf_integer_arg};
use crate::sqlite3::reals::{
    abs_bits, below, bits_of_int, fail, int_bits, parsed_real, plain_view, real_abs, real_answer,
    real_below, real_of_int, stop_view, storage_stop, Eval, Facts, RealFacts, RealOp, StopView,
};
use crate::sqlite3::strings::{i64_of, lossy, lossy_text, text_i64, trim, trimmed};
use crate::sqlite3::values::{
    arithmetic_prefix, bool_int, bool_real, cast_to_integer, coerce_text_like_value, int_of_bool,
    integer_cast, real_of_bool, sqlite_text_arithmetic_prefix, value_text,
};

verus! {

/// The real that a text starts with.
pub open spec fn leading_real(f: Facts, s: Seq<char>) -> Result<u64, StopView> {
    match arithmetic_prefix(f, s) {
        Err(stop) => Err(stop),
        Ok(v) => number_real(f, v),
    }
}

fn read_leading_real(facts: &RealFacts, s: &str) -> (r: Eval<u64>)
    ensures
        plain_view(r) == leading_real(facts@, s@),
{
    let v = sqlite_text_arithmetic_prefix(facts, s)?;
    real_from_numeric_value(facts, &v)
}

/// A real, or the reason that there is none.
pub open spec fn real_value(r: Result<u64, StopView>) -> Result<SqlValue, StopView> {
    match r {
        Ok(bits) => Ok(SqlValue::Real(bits)),
        Err(s) => Err(s),
    }
}

/// What `ABS` gives of a value.
pub open spec fn absolute(f: Facts, v: SqlValue) -> Result<SqlValue, StopView> {
    match v {
        SqlValue::Null => Ok(SqlValue::Null),
        SqlValue::Integer(i) => if i == i64::MIN {
            Err(storage_stop("ABS overflowed i64"@))
        } else if i < 0 {
            Ok(SqlValue::Integer((-i) as i64))
        } else {
            Ok(SqlValue::Integer(i))
        },
        SqlValue::Real(bits) => Ok(SqlValue::Real(real_abs(bits))),
        SqlValue::Boolean(b) => Ok(SqlValue::Real(bool_real(b))),
        SqlValue::Text(t) => match leading_real(f, t) {
            Ok(bits) => Ok(SqlValue::Real(real_abs(bits))),
            Err(s) => Err(s),
        },
        SqlValue::Blob(b) => match leading_real(f, lossy_text(b)) {
            Ok(bits) => Ok(SqlValue::Real(real_abs(bits))),
            Err(s) => Err(s),
        },
    }
}

pub fn abs_value(facts: &RealFacts, v: &DbValue) -> (r: Eval<DbValue>)
    ensures
        stop_view(r) == absolute(facts@, v@),
{
    match v {
        DbValue::Null => Ok(DbValue::Null),
        DbValue::Integer(i) => {
            if *i == i64::MIN {
                Err(fail("ABS overflowed i64"))
            } else if *i < 0 {
                Ok(DbValue::Integer(-*i))
            } else {
                Ok(DbValue::Integer(*i))
            }
        },
        DbValue::Real(bits) => Ok(DbValue::Real(abs_bits(*bits))),
        DbValue::Boolean(b) => Ok(DbValue::Real(real_of_bool(*b))),
        DbValue::Text(t) => {
            let bits: u64 = read_leading_real(facts, t.as_str())?;
            Ok(DbValue::Real(abs_bits(bits)))
        },
        DbValue::Blob(b) => {
            let bits: u64 = read_leading_real(facts, lossy(b.as_slice()).as_str())?;
            Ok(DbValue::Real(abs_bits(bits)))
        },
    }
}

/// What `TYPEOF` gives of a value.
pub open spec fn storage_class(v: SqlValue) -> Seq<char> {
    match v {
        SqlValue::Null => "null"@,
        SqlValue::Boolean(_) => "integer"@,
        SqlValue::Integer(_) => "integer"@,
        SqlValue::Real(_) => "real"@,
        SqlValue::Blob(_) => "blob"@,
        SqlValue::Text(_) => "text"@,
    }
}

pub fn class_of(v: &DbValue) -> (r: &'static str)
    ensures
        r@ == storage_class(v@),
{
    match v {
        DbValue::Null => "null",
        DbValue::Boolean(_) => "integer",
        DbValue::Integer(_) => "integer",
        DbValue::Real(_) => "real",
        DbValue::Blob(_) => "blob",
        DbValue::Text(_) => "text",
    }
}

/// The sign of an integer.
pub open spec fn int_sign(i: i64) -> i64 {
    if i > 0 {
        1
    } else if i < 0 {
        (-1) as i64
    } else {
        0
    }
}

fn sign_of_int(i: i64) -> (r: i64)
    ensures
        r == int_sign(i),
{
    if i > 0 {
        1
    } else if i < 0 {
        -1
    } else {
        0
    }
}

/// The sign of a real.
pub open spec fn real_sign(bits: u64) -> i64 {
    if real_below(0, bits) {
        1
    } else if real_below(bits, 0) {
        (-1) as i64
    } else {
        0
    }
}

fn sign_of_real(bits: u64) -> (r: i64)
    ensures
        r == real_sign(bits),
{
    if below(0, bits) {
        1
    } else if below(bits, 0) {
        -1
    } else {
        0
    }
}

/// What `SIGN` gives of a value: null of what is no number.
pub open spec fn sign_of(f: Facts, v: SqlValue) -> Result<SqlValue, StopView> {
    match v {
        SqlValue::Null => Ok(SqlValue::Null),
        SqlValue::Boolean(b) => Ok(SqlValue::Integer(bool_int(b))),
        SqlValue::Integer(i) => Ok(SqlValue::Integer(int_sign(i))),
        SqlValue::Real(bits) => Ok(SqlValue::Integer(real_sign(bits))),
        SqlValue::Text(t) => match i64_of(trimmed(t)) {
            Some(i) => Ok(SqlValue::Integer(int_sign(i))),
            None => match parsed_real(f, trimmed(t)) {
                Err(s) => Err(s),
                Ok(Some(bits)) => Ok(SqlValue::Integer(real_sign(bits))),
                Ok(None) => Ok(SqlValue::Null),
            },
        },
        SqlValue::Blob(_) => Ok(SqlValue::Null),
    }
}

pub fn sign_value(facts: &RealFacts, v: &DbValue) -> (r: Eval<DbValue>)
    ensures
        stop_view(r) == sign_of(facts@, v@),
{
    match v {
        DbValue::Null => Ok(DbValue::Null),
        DbValue::Boolean(b) => Ok(DbValue::Integer(int_of_bool(*b))),
        DbValue::Integer(i) => Ok(DbValue::Integer(sign_of_int(*i))),
        DbValue::Real(bits) => Ok(DbValue::Integer(sign_of_real(*bits))),
        DbValue::Text(t) => {
            let inner = trim(t.as_str());
            match text_i64(inner.as_str()) {
                Some(i) => Ok(DbValue::Integer(sign_of_int(i))),
                None => match facts.parse(inner)? {
                    Some(bits) => Ok(DbValue::Integer(sign_of_real(bits))),
                    None => Ok(DbValue::Null),
                },
            }
        },
        DbValue::Blob(_) => Ok(DbValue::Null),
    }
}

/// The real that `ROUND` rounds.
pub open spec fn rounding_subject(f: Facts, v: SqlValue) -> Result<u64, StopView> {
    match v {
        SqlValue::Null => Ok(0),
        SqlValue::Integer(i) => real_of_int(f, i),
        SqlValue::Real(bits) => Ok(bits),
        SqlValue::Boolean(b) => Ok(bool_real(b)),
        SqlValue::Text(t) => leading_real(f, t),
        SqlValue::Blob(b) => leading_real(f, lossy_text(b)),
    }
}

fn read_subject(facts: &RealFacts, v: &DbValue) -> (r: Eval<u64>)
    ensures
        plain_view(r) == rounding_subject(facts@, v@),
{
    match v {
        DbValue::Null => Ok(0),
        DbValue::Integer(i) => facts.of_int(*i),
        DbValue::Real(bits) => Ok(*bits),
        DbValue::Boolean(b) => Ok(real_of_bool(*b)),
        DbValue::Text(t) => read_leading_real(facts, t.as_str()),
        DbValue::Blob(b) => read_leading_real(facts, lossy(b.as_slice()).as_str()),
    }
}

/// What `ROUND` gives: the second value is the number of decimals.
pub open spec fn rounded(f: Facts, args: Seq<SqlValue>) -> Result<SqlValue, StopView> {
    if args[0] is Null {
        Ok(SqlValue::Null)
    } else {
        match rounding_subject(f, args[0]) {
            Err(s) => Err(s),
            Ok(bits) => if args.len() == 2 {
                if args[1] is Null {
                    Ok(SqlValue::Null)
                } else {
                    match integer_argument(f, args[1]) {
                        Err(s) => Err(s),
                        Ok(i) => if i32::MIN <= i <= i32::MAX {
                            real_value(real_answer(f, RealOp::RoundTo, bits, int_bits(i)))
                        } else {
                            Err(storage_stop("ROUND precision does not fit in i32"@))
                        },
                    }
                }
            } else {
                real_value(real_answer(f, RealOp::RoundTo, bits, int_bits(0)))
            },
        }
    }
}

pub fn round_values(facts: &RealFacts, args: &[DbValue]) -> (r: Eval<DbValue>)
    requires
        1 <= args@.len() <= 2,
    ensures
        stop_view(r) == rounded(facts@, args.deep_view()),
{
    assert(args.deep_view()[0] == args@[0]@);
    if let DbValue::Null = &args[0] {
        return Ok(DbValue::Null);
    }
    let bits: u64 = read_subject(facts, &args[0])?;
    if args.len() == 2 {
        assert(args.deep_view()[1] == args@[1]@);
        if let DbValue::Null = &args[1] {
            return Ok(DbValue::Null);
        }
        let i: i64 = sqlite_printf_integer_arg(facts, &args[1])?;
        if i < i32::MIN as i64 || i > i32::MAX as i64 {
            return Err(fail("ROUND precision does not fit in i32"));
        }
        let out: u64 = facts.real_result(RealOp::RoundTo, bits, bits_of_int(i))?;
        return Ok(DbValue::Real(out));
    }
    let out: u64 = facts.real_result(RealOp::RoundTo, bits, bits_of_int(0))?;
    Ok(DbValue::Real(out))
}

/// What `CEIL`, `FLOOR` and `TRUNC` give of a value: an integer stays as it is.
pub open spec fn whole_of(f: Facts, op: RealOp, v: SqlValue) -> Result<SqlValue, StopView> {
    match v {
        SqlValue::Null => Ok(SqlValue::Null),
        SqlValue::Integer(i) => Ok(SqlValue::Integer(i)),
        SqlValue::Real(bits) => real_value(real_answer(f, op, bits, 0)),
        SqlValue::Boolean(b) => Ok(SqlValue::Integer(bool_int(b))),
        SqlValue::Text(t) => match parsed_real(f, trimmed(t)) {
            Err(s) => Err(s),
            Ok(Some(bits)) => real_value(real_answer(f, op, bits, 0)),
            Ok(None) => Ok(SqlValue::Null),
        },
        SqlValue::Blob(_) => Ok(SqlValue::Null),
    }
}

pub fn whole_value(facts: &RealFacts, op: RealOp, v: &DbValue) -> (r: Eval<DbValue>)
    ensures
        stop_view(r) == whole_of(facts@, op, v@),
{
    match v {
        DbValue::Null => Ok(DbValue::Null),
        DbValue::Integer(i) => Ok(DbValue::Integer(*i)),
        DbValue::Real(bits) => {
            let out: u64 = facts.real_result(op, *bits, 0)?;
            Ok(DbValue::Real(out))
        },
        DbValue::Boolean(b) => Ok(DbValue::Integer(int_of_bool(*b))),
        DbValue::Text(t) => match facts.parse(trim(t.as_str()))? {
            Some(bits) => {
                let out: u64 = facts.real_result(op, bits, 0)?;
                Ok(DbValue::Real(out))
            },
            None => Ok(DbValue::Null),
        },
        DbValue::Blob(_) => Ok(DbValue::Null),
    }
}

/// The length of the blob that `ZEROBLOB` gives: a negative one is zero.
pub open spec fn blob_size(i: i64) -> nat {
    if i < 0 {
        0
    } else {
        i as nat
    }
}

/// What `ZEROBLOB` gives of a value.
pub open spec fn zeros_of(f: Facts, v: SqlValue) -> Result<SqlValue, StopView> {
    match cast_to_integer(f, v) {
        Err(s) => Err(s),
        Ok(SqlValue::Integer(i)) => if blob_size(i) > usize::MAX {
            Err(storage_stop("ZEROBLOB length is too large"@))
        } else {
            Ok(SqlValue::Blob(Seq::new(blob_size(i), |k: int| 0u8)))
        },
        Ok(_) => Ok(SqlValue::Blob(Seq::new(0, |k: int| 0u8))),
    }
}

pub fn zeroblob_value(facts: &RealFacts, v: &DbValue) -> (r: Eval<DbValue>)
    ensures
        stop_view(r) == zeros_of(facts@, v@),
{
    let n: i64 = match integer_cast(facts, v)? {
        DbValue::Integer(i) => {
            if i < 0 {
                0
            } else {
                i
            }
        },
        _ => 0,
    };
    if n as u128 > usize::MAX as u128 {
        return Err(fail("ZEROBLOB length is too large"));
    }
    let out = zero_vec(n as usize);
    assert(out@ =~= Seq::new(n as nat, |k: int| 0u8));
    Ok(DbValue::Blob(out))
}

/// What a moment is shown as.
#[derive(Debug, Clone, Copy, PartialEq, Eq, Structural)]
pub enum MomentPart {
    Date,
    Time,
    DateTime,
}

/// What `DATE`, `TIME` and `DATETIME` give.
pub open spec fn moment_text(f: Facts, part: MomentPart, args: Seq<SqlValue>) -> Result<
    SqlValue,
    StopView,
> {
    match moment_of_args(f, args) {
        Err(s) => Err(s),
        Ok(None) => Ok(SqlValue::Null),
        Ok(Some(p)) => if part is Date {
            Ok(SqlValue::Text(date_text(p)))
        } else {
            match subsecond_from(f, args, 1) {
                Err(s) => Err(s),
                Ok(subsecond) => Ok(
                    SqlValue::Text(
                        if part is Time {
                            time_text(p, subsecond)
                        } else {
                            date_text(p) + " "@ + time_text(p, subsecond)
                        },
                    ),
                ),
            }
        },
    }
}

pub fn moment_values(facts: &RealFacts, part: MomentPart, args: &[DbValue]) -> (r: Eval<DbValue>)
    ensures
        stop_view(r) == moment_text(facts@, part, args.deep_view()),
{
    let p = match parse_date_time_args(facts, args)? {
        None => {
            return Ok(DbValue::Null);
        },
        Some(p) => p,
    };
    let mut out = String::new();
    if let MomentPart::Date = part {
        push_date(&mut out, p);
        assert(out@ =~= date_text(p));
        return Ok(DbValue::Text(out));
    }
    let subsecond = date_time_args_have_subsecond(facts, args)?;
    if let MomentPart::DateTime = part {
        push_date(&mut out, p);
        out.append(" ");
    }
    push_time(&mut out, p, subsecond);
    assert(part is Time ==> out@ =~= time_text(p, subsecond));
    assert(part is DateTime ==> out@ =~= date_text(p) + " "@ + time_text(p, subsecond));
    Ok(DbValue::Text(out))
}

/// What `TIMEDIFF` gives of two moments.
pub open spec fn moments_apart(f: Facts, args: Seq<SqlValue>) -> Result<SqlValue, StopView> {
    match (moment_of_args(f, seq![args[0]]), moment_of_args(f, seq![args[1]])) {
        (Err(s), _) => Err(s),
        (_, Err(s)) => Err(s),
        (Ok(Some(a)), Ok(Some(b))) => match difference_of(b, a) {
            Some(t) => Ok(SqlValue::Text(t)),
            None => Err(storage_stop("TIMEDIFF overflowed i64"@)),
        },
        _ => Ok(SqlValue::Null),
    }
}

pub fn timediff_values(facts: &RealFacts, args: &[DbValue]) -> (r: Eval<DbValue>)
    requires
        args@.len() == 2,
    ensures
        stop_view(r) == moments_apart(facts@, args.deep_view()),
{
    let first = vstd::slice::slice_subrange(args, 0, 1);
    let second = vstd::slice::slice_subrange(args, 1, 2);
    assert(first.deep_view() =~= seq![args.deep_view()[0]]);
    assert(second.deep_view() =~= seq![args.deep_view()[1]]);
    let left = parse_date_time_args(facts, first)?;
    let right = parse_date_time_args(facts, second)?;
    match (left, right) {
        (Some(a), Some(b)) => match sqlite_timediff_between(b, a) {
            Some(t) => Ok(DbValue::Text(t)),
            None => Err(fail("TIMEDIFF overflowed i64")),
        },
        _ => Ok(DbValue::Null),
    }
}

/// The moment that `STRFTIME` shows: the present one where only a format is given.
pub open spec fn shown_args(args: Seq<SqlValue>) -> Seq<SqlValue> {
    if args.len() == 1 {
        seq![SqlValue::Text("now"@)]
    } else {
        args.skip(1)
    }
}

/// What `STRFTIME` gives: the first value is the format.
pub open spec fn shown(f: Facts, args: Seq<SqlValue>) -> Result<SqlValue, StopView> {
    if args.len() == 0 || args[0] is Null {
        Ok(SqlValue::Null)
    } else {
        match value_text(f, args[0]) {
            Err(s) => Err(s),
            Ok(format) => shown_as(f, format, shown_args(args)),
        }
    }
}

/// A moment in a format.
pub open spec fn shown_as(f: Facts, format: Seq<char>, args: Seq<SqlValue>) -> Result<
    SqlValue,
    StopView,
> {
    match subsecond_from(f, args, 1) {
        Err(s) => Err(s),
        Ok(subsecond) => match moment_of_args(f, args) {
            Err(s) => Err(s),
            Ok(None) => Ok(SqlValue::Null),
            Ok(Some(p)) => match strftime(f, format, p, subsecond) {
                Err(s) => Err(s),
                Ok(Some(t)) => Ok(SqlValue::Text(t)),
                Ok(None) => Ok(SqlValue::Null),
            },
        },
    }
}

fn show_as(facts: &RealFacts, format: &str, args: &[DbValue]) -> (r: Eval<DbValue>)
    ensures
        stop_view(r) == shown_as(facts@, format@, args.deep_view()),
{
    let subsecond = date_time_args_have_subsecond(facts, args)?;
    match parse_date_time_args(facts, args)? {
        None => Ok(DbValue::Null),
        Some(p) => match sqlite_strftime_minimal(facts, format, p, subsecond)? {
            Some(t) => Ok(DbValue::Text(t)),
            None => Ok(DbValue::Null),
        },
    }
}

pub fn strftime_values(facts: &RealFacts, args: &[DbValue]) -> (r: Eval<DbValue>)
    ensures
        stop_view(r) == shown(facts@, args.deep_view()),
{
    if args.len() == 0 {
        return Ok(DbValue::Null);
    }
    assert(args.deep_view()[0] == args@[0]@);
    if let DbValue::Null = &args[0] {
        return Ok(DbValue::Null);
    }
    let format = coerce_text_like_value(facts, &args[0])?;
    if args.len() == 1 {
        let mut now: Vec<DbValue> = Vec::new();
        now.push(DbValue::Text("now".to_owned()));
        let present = now.as_slice();
        assert(present.deep_view() =~= shown_args(args.deep_view()));
        return show_as(facts, format.as_str(), present);
    }
    let rest = vstd::slice::slice_subrange(args, 1, args.len());
    assert(rest.deep_view() =~= args.deep_view().skip(1));
    show_as(facts, format.as_str(), rest)
}

/// What `JULIANDAY` gives.
pub open spec fn julian_of_args(f: Facts, args: Seq<SqlValue>) -> Result<SqlValue, StopView> {
    match moment_of_args(f, args) {
        Err(s) => Err(s),
        Ok(None) => Ok(SqlValue::Null),
        Ok(Some(p)) => real_value(julian_day(f, p)),
    }
}

pub fn julianday_values(facts: &RealFacts, args: &[DbValue]) -> (r: Eval<DbValue>)
    ensures
        stop_view(r) == julian_of_args(facts@, args.deep_view()),
{
    match parse_date_time_args(facts, args)? {
        None => Ok(DbValue::Null),
        Some(p) => {
            let bits: u64 = sqlite_julianday(facts, p)?;
            Ok(DbValue::Real(bits))
        },
    }
}

/// What `UNIXEPOCH` gives.
pub open spec fn epoch_of_args(f: Facts, args: Seq<SqlValue>) -> Result<SqlValue, StopView> {
    match subsecond_from(f, args, 1) {
        Err(s) => Err(s),
        Ok(subsecond) => match moment_of_args(f, args) {
            Err(s) => Err(s),
            Ok(None) => Ok(SqlValue::Null),
            Ok(Some(p)) => epoch_value(f, p, subsecond),
        },
    }
}

pub fn unixepoch_values(facts: &RealFacts, args: &[DbValue]) -> (r: Eval<DbValue>)
    ensures
        stop_view(r) == epoch_of_args(facts@, args.deep_view()),
{
    let subsecond = date_time_args_have_subsecond(facts, args)?;
    match parse_date_time_args(facts, args)? {
        None => Ok(DbValue::Null),
        Some(p) => sqlite_unixepoch(facts, p, subsecond),
    }
}

} // verus!
