//! The functions of expressions.

use vstd::prelude::*;

use crate::common::checks::TrimSide;
use crate::common::text::{nat_text, u64_text};
use crate::common::value::{copy_values, DbValue, SqlValue};
use crate::sqlite3::arithmetic::{
    binary_math, evaluate_min_max_scalar_function, extreme, sqlite_binary_math_function,
    sqlite_unary_math_function, unary_math,
};
use crate::sqlite3::json_functions::{
    array_from, array_length, error_position, extracted, json_array_length_value, json_array_value,
    json_error_position_value, json_extract_values, json_literal, json_normalize_value,
    json_object_value, json_patch_value, json_pretty_value, json_quote_value, json_remove_value,
    json_type_value, json_valid_values, json_write_value, normalized, object_from, patched,
    pretty_value, removed_value, type_value, valid_value, written_value,
};
use crate::sqlite3::json_values::JsonWriteMode;
use crate::sqlite3::number_functions::{
    abs_value, absolute, class_of, epoch_of_args, julian_of_args, julianday_values, moment_text,
    moment_values, moments_apart, round_values, rounded, shown, sign_of, sign_value, storage_class,
    strftime_values, timediff_values, unixepoch_values, whole_of, whole_value, zeroblob_value,
    zeros_of, MomentPart,
};
use crate::sqlite3::quoting::{sqlite_unistr, sqlite_unistr_quote, unescaped, unistr_literal};
use crate::sqlite3::reals::{
    fail, stop_view, storage_stop, Eval, Facts, RealFacts, RealOp, StopView,
};
use crate::sqlite3::text_functions::{
    case_value, cased, char_values, chars_from, concat_from, concat_values, concat_ws_values,
    evaluate_trim_family_function, first_code, hex_of_db_value, hex_of_value, length_of,
    length_value, like_value, like_values, match_pattern, octet_length_value, octets_of, parted,
    pattern_value, position_of, printed, printf_values, quote_of, quote_value, replace_values,
    replaced_value, sqlite_instr_value, substr_values, substring, trimmed_value, unhex_values,
    unhexed, unicode_value,
};
use crate::sqlite3::values::{coerce_text_like_value, value_text};

verus! {

/// A function of an expression.
#[derive(Debug, Clone, Copy, PartialEq, Eq, Structural)]
pub enum ScalarFunc {
    Abs,
    Acos,
    Acosh,
    Asin,
    Asinh,
    Atan,
    Atan2,
    Atanh,
    Ceil,
    Ceiling,
    Changes,
    Char,
    Coalesce,
    Concat,
    ConcatWs,
    Cos,
    Cosh,
    Date,
    DateTime,
    Degrees,
    Exp,
    Floor,
    GlobFunc,
    Hex,
    IIf,
    If,
    IfNull,
    Instr,
    Json,
    JsonArray,
    JsonArrayLength,
    JsonErrorPosition,
    JsonExtract,
    JsonInsert,
    JsonObject,
    JsonPatch,
    JsonPretty,
    JsonQuote,
    JsonRemove,
    JsonReplace,
    JsonSet,
    JsonType,
    JsonValid,
    JulianDay,
    LTrim,
    LastInsertRowId,
    Length,
    LikeFunc,
    Likelihood,
    Likely,
    Ln,
    Log,
    Log10,
    Log2,
    Lower,
    MatchFunc,
    MaxScalar,
    MinScalar,
    Mod,
    NullIf,
    OctetLength,
    Pi,
    Power,
    Printf,
    Quote,
    RTrim,
    Radians,
    Random,
    RandomBlob,
    RegexpFunc,
    Replace,
    Round,
    Sign,
    Sin,
    Sinh,
    SqliteLog,
    SqliteSourceId,
    SqliteVersion,
    Sqrt,
    Strftime,
    Substr,
    Subtype,
    Tan,
    Tanh,
    Time,
    TimeDiff,
    TotalChanges,
    Trim,
    Trunc,
    TypeOf,
    Unhex,
    Unicode,
    Unistr,
    UnistrQuote,
    UnixEpoch,
    Unlikely,
    Upper,
    ZeroBlob,
}

/// How many arguments a function takes.
#[derive(Debug, Clone, Copy, PartialEq, Eq, Structural)]
pub enum Arity {
    Exactly(usize),
    OneOrTwo,
    TwoOrThree,
    AtLeastOne,
    AtLeastTwo,
    TwoOrMore,
    Even,
    Odd,
    Any,
}

/// The name of a function and how many arguments it takes.
pub open spec fn arity(func: ScalarFunc) -> (Seq<char>, Arity) {
    match func {
        ScalarFunc::Abs => ("ABS"@, Arity::Exactly(1)),
        ScalarFunc::Acos => ("ACOS"@, Arity::Exactly(1)),
        ScalarFunc::Acosh => ("ACOSH"@, Arity::Exactly(1)),
        ScalarFunc::Asin => ("ASIN"@, Arity::Exactly(1)),
        ScalarFunc::Asinh => ("ASINH"@, Arity::Exactly(1)),
        ScalarFunc::Atan => ("ATAN"@, Arity::Exactly(1)),
        ScalarFunc::Atan2 => ("ATAN2"@, Arity::Exactly(2)),
        ScalarFunc::Atanh => ("ATANH"@, Arity::Exactly(1)),
        ScalarFunc::Ceil => ("CEIL"@, Arity::Exactly(1)),
        ScalarFunc::Ceiling => ("CEILING"@, Arity::Exactly(1)),
        ScalarFunc::Coalesce => ("COALESCE"@, Arity::AtLeastTwo),
        ScalarFunc::Concat => ("CONCAT"@, Arity::AtLeastOne),
        ScalarFunc::ConcatWs => ("CONCAT_WS"@, Arity::AtLeastTwo),
        ScalarFunc::Cos => ("COS"@, Arity::Exactly(1)),
        ScalarFunc::Cosh => ("COSH"@, Arity::Exactly(1)),
        ScalarFunc::Degrees => ("DEGREES"@, Arity::Exactly(1)),
        ScalarFunc::Exp => ("EXP"@, Arity::Exactly(1)),
        ScalarFunc::Floor => ("FLOOR"@, Arity::Exactly(1)),
        ScalarFunc::GlobFunc => ("GLOB"@, Arity::Exactly(2)),
        ScalarFunc::Hex => ("HEX"@, Arity::Exactly(1)),
        ScalarFunc::IIf => ("IIF"@, Arity::TwoOrMore),
        ScalarFunc::If => ("IF"@, Arity::TwoOrMore),
        ScalarFunc::IfNull => ("IFNULL"@, Arity::Exactly(2)),
        ScalarFunc::Instr => ("INSTR"@, Arity::Exactly(2)),
        ScalarFunc::Json => ("JSON"@, Arity::Exactly(1)),
        ScalarFunc::JsonArrayLength => ("JSON_ARRAY_LENGTH"@, Arity::OneOrTwo),
        ScalarFunc::JsonErrorPosition => ("JSON_ERROR_POSITION"@, Arity::Exactly(1)),
        ScalarFunc::JsonExtract => ("JSON_EXTRACT"@, Arity::TwoOrMore),
        ScalarFunc::JsonInsert => ("json_insert"@, Arity::Odd),
        ScalarFunc::JsonObject => ("json_object"@, Arity::Even),
        ScalarFunc::JsonPatch => ("JSON_PATCH"@, Arity::Exactly(2)),
        ScalarFunc::JsonPretty => ("JSON_PRETTY"@, Arity::OneOrTwo),
        ScalarFunc::JsonQuote => ("JSON_QUOTE"@, Arity::Exactly(1)),
        ScalarFunc::JsonRemove => ("JSON_REMOVE"@, Arity::AtLeastOne),
        ScalarFunc::JsonReplace => ("json_replace"@, Arity::Odd),
        ScalarFunc::JsonSet => ("json_set"@, Arity::Odd),
        ScalarFunc::JsonType => ("JSON_TYPE"@, Arity::OneOrTwo),
        ScalarFunc::JsonValid => ("JSON_VALID"@, Arity::OneOrTwo),
        ScalarFunc::LTrim => ("LTRIM"@, Arity::OneOrTwo),
        ScalarFunc::Length => ("LENGTH"@, Arity::Exactly(1)),
        ScalarFunc::LikeFunc => ("LIKE"@, Arity::TwoOrThree),
        ScalarFunc::Likelihood => ("LIKELIHOOD"@, Arity::Exactly(2)),
        ScalarFunc::Likely => ("LIKELY"@, Arity::Exactly(1)),
        ScalarFunc::Ln => ("LN"@, Arity::Exactly(1)),
        ScalarFunc::Log => ("LOG"@, Arity::OneOrTwo),
        ScalarFunc::Log10 => ("LOG10"@, Arity::Exactly(1)),
        ScalarFunc::Log2 => ("LOG2"@, Arity::Exactly(1)),
        ScalarFunc::Lower => ("LOWER"@, Arity::Exactly(1)),
        ScalarFunc::MatchFunc => ("MATCH"@, Arity::Exactly(2)),
        ScalarFunc::MaxScalar => ("MAX"@, Arity::AtLeastOne),
        ScalarFunc::MinScalar => ("MIN"@, Arity::AtLeastOne),
        ScalarFunc::Mod => ("MOD"@, Arity::Exactly(2)),
        ScalarFunc::NullIf => ("NULLIF"@, Arity::Exactly(2)),
        ScalarFunc::OctetLength => ("OCTET_LENGTH"@, Arity::Exactly(1)),
        ScalarFunc::Pi => ("PI"@, Arity::Exactly(0)),
        ScalarFunc::Power => ("POWER"@, Arity::Exactly(2)),
        ScalarFunc::Printf => ("PRINTF"@, Arity::AtLeastOne),
        ScalarFunc::Quote => ("QUOTE"@, Arity::Exactly(1)),
        ScalarFunc::RTrim => ("RTRIM"@, Arity::OneOrTwo),
        ScalarFunc::Radians => ("RADIANS"@, Arity::Exactly(1)),
        ScalarFunc::RegexpFunc => ("REGEXP"@, Arity::Exactly(2)),
        ScalarFunc::Replace => ("REPLACE"@, Arity::Exactly(3)),
        ScalarFunc::Round => ("ROUND"@, Arity::OneOrTwo),
        ScalarFunc::Sign => ("SIGN"@, Arity::Exactly(1)),
        ScalarFunc::Sin => ("SIN"@, Arity::Exactly(1)),
        ScalarFunc::Sinh => ("SINH"@, Arity::Exactly(1)),
        ScalarFunc::SqliteLog => ("SQLITE_LOG"@, Arity::Exactly(2)),
        ScalarFunc::Sqrt => ("SQRT"@, Arity::Exactly(1)),
        ScalarFunc::Substr => ("SUBSTR"@, Arity::TwoOrThree),
        ScalarFunc::Subtype => ("SUBTYPE"@, Arity::Exactly(1)),
        ScalarFunc::Tan => ("TAN"@, Arity::Exactly(1)),
        ScalarFunc::Tanh => ("TANH"@, Arity::Exactly(1)),
        ScalarFunc::TimeDiff => ("TIMEDIFF"@, Arity::Exactly(2)),
        ScalarFunc::Trim => ("TRIM"@, Arity::OneOrTwo),
        ScalarFunc::Trunc => ("TRUNC"@, Arity::Exactly(1)),
        ScalarFunc::TypeOf => ("TYPEOF"@, Arity::Exactly(1)),
        ScalarFunc::Unhex => ("UNHEX"@, Arity::OneOrTwo),
        ScalarFunc::Unicode => ("UNICODE"@, Arity::Exactly(1)),
        ScalarFunc::Unistr => ("UNISTR"@, Arity::Exactly(1)),
        ScalarFunc::UnistrQuote => ("UNISTR_QUOTE"@, Arity::Exactly(1)),
        ScalarFunc::Unlikely => ("UNLIKELY"@, Arity::Exactly(1)),
        ScalarFunc::Upper => ("UPPER"@, Arity::Exactly(1)),
        ScalarFunc::ZeroBlob => ("ZEROBLOB"@, Arity::Exactly(1)),
        _ => (Seq::empty(), Arity::Any),
    }
}

fn arity_of(func: ScalarFunc) -> (r: (&'static str, Arity))
    ensures
        (r.0@, r.1) == arity(func),
{
    match func {
        ScalarFunc::Abs => ("ABS", Arity::Exactly(1)),
        ScalarFunc::Acos => ("ACOS", Arity::Exactly(1)),
        ScalarFunc::Acosh => ("ACOSH", Arity::Exactly(1)),
        ScalarFunc::Asin => ("ASIN", Arity::Exactly(1)),
        ScalarFunc::Asinh => ("ASINH", Arity::Exactly(1)),
        ScalarFunc::Atan => ("ATAN", Arity::Exactly(1)),
        ScalarFunc::Atan2 => ("ATAN2", Arity::Exactly(2)),
        ScalarFunc::Atanh => ("ATANH", Arity::Exactly(1)),
        ScalarFunc::Ceil => ("CEIL", Arity::Exactly(1)),
        ScalarFunc::Ceiling => ("CEILING", Arity::Exactly(1)),
        ScalarFunc::Coalesce => ("COALESCE", Arity::AtLeastTwo),
        ScalarFunc::Concat => ("CONCAT", Arity::AtLeastOne),
        ScalarFunc::ConcatWs => ("CONCAT_WS", Arity::AtLeastTwo),
        ScalarFunc::Cos => ("COS", Arity::Exactly(1)),
        ScalarFunc::Cosh => ("COSH", Arity::Exactly(1)),
        ScalarFunc::Degrees => ("DEGREES", Arity::Exactly(1)),
        ScalarFunc::Exp => ("EXP", Arity::Exactly(1)),
        ScalarFunc::Floor => ("FLOOR", Arity::Exactly(1)),
        ScalarFunc::GlobFunc => ("GLOB", Arity::Exactly(2)),
        ScalarFunc::Hex => ("HEX", Arity::Exactly(1)),
        ScalarFunc::IIf => ("IIF", Arity::TwoOrMore),
        ScalarFunc::If => ("IF", Arity::TwoOrMore),
        ScalarFunc::IfNull => ("IFNULL", Arity::Exactly(2)),
        ScalarFunc::Instr => ("INSTR", Arity::Exactly(2)),
        ScalarFunc::Json => ("JSON", Arity::Exactly(1)),
        ScalarFunc::JsonArrayLength => ("JSON_ARRAY_LENGTH", Arity::OneOrTwo),
        ScalarFunc::JsonErrorPosition => ("JSON_ERROR_POSITION", Arity::Exactly(1)),
        ScalarFunc::JsonExtract => ("JSON_EXTRACT", Arity::TwoOrMore),
        ScalarFunc::JsonInsert => ("json_insert", Arity::Odd),
        ScalarFunc::JsonObject => ("json_object", Arity::Even),
        ScalarFunc::JsonPatch => ("JSON_PATCH", Arity::Exactly(2)),
        ScalarFunc::JsonPretty => ("JSON_PRETTY", Arity::OneOrTwo),
        ScalarFunc::JsonQuote => ("JSON_QUOTE", Arity::Exactly(1)),
        ScalarFunc::JsonRemove => ("JSON_REMOVE", Arity::AtLeastOne),
        ScalarFunc::JsonReplace => ("json_replace", Arity::Odd),
        ScalarFunc::JsonSet => ("json_set", Arity::Odd),
        ScalarFunc::JsonType => ("JSON_TYPE", Arity::OneOrTwo),
        ScalarFunc::JsonValid => ("JSON_VALID", Arity::OneOrTwo),
        ScalarFunc::LTrim => ("LTRIM", Arity::OneOrTwo),
        ScalarFunc::Length => ("LENGTH", Arity::Exactly(1)),
        ScalarFunc::LikeFunc => ("LIKE", Arity::TwoOrThree),
        ScalarFunc::Likelihood => ("LIKELIHOOD", Arity::Exactly(2)),
        ScalarFunc::Likely => ("LIKELY", Arity::Exactly(1)),
        ScalarFunc::Ln => ("LN", Arity::Exactly(1)),
        ScalarFunc::Log => ("LOG", Arity::OneOrTwo),
        ScalarFunc::Log10 => ("LOG10", Arity::Exactly(1)),
        ScalarFunc::Log2 => ("LOG2", Arity::Exactly(1)),
        ScalarFunc::Lower => ("LOWER", Arity::Exactly(1)),
        ScalarFunc::MatchFunc => ("MATCH", Arity::Exactly(2)),
        ScalarFunc::MaxScalar => ("MAX", Arity::AtLeastOne),
        ScalarFunc::MinScalar => ("MIN", Arity::AtLeastOne),
        ScalarFunc::Mod => ("MOD", Arity::Exactly(2)),
        ScalarFunc::NullIf => ("NULLIF", Arity::Exactly(2)),
        ScalarFunc::OctetLength => ("OCTET_LENGTH", Arity::Exactly(1)),
        ScalarFunc::Pi => ("PI", Arity::Exactly(0)),
        ScalarFunc::Power => ("POWER", Arity::Exactly(2)),
        ScalarFunc::Printf => ("PRINTF", Arity::AtLeastOne),
        ScalarFunc::Quote => ("QUOTE", Arity::Exactly(1)),
        ScalarFunc::RTrim => ("RTRIM", Arity::OneOrTwo),
        ScalarFunc::Radians => ("RADIANS", Arity::Exactly(1)),
        ScalarFunc::RegexpFunc => ("REGEXP", Arity::Exactly(2)),
        ScalarFunc::Replace => ("REPLACE", Arity::Exactly(3)),
        ScalarFunc::Round => ("ROUND", Arity::OneOrTwo),
        ScalarFunc::Sign => ("SIGN", Arity::Exactly(1)),
        ScalarFunc::Sin => ("SIN", Arity::Exactly(1)),
        ScalarFunc::Sinh => ("SINH", Arity::Exactly(1)),
        ScalarFunc::SqliteLog => ("SQLITE_LOG", Arity::Exactly(2)),
        ScalarFunc::Sqrt => ("SQRT", Arity::Exactly(1)),
        ScalarFunc::Substr => ("SUBSTR", Arity::TwoOrThree),
        ScalarFunc::Subtype => ("SUBTYPE", Arity::Exactly(1)),
        ScalarFunc::Tan => ("TAN", Arity::Exactly(1)),
        ScalarFunc::Tanh => ("TANH", Arity::Exactly(1)),
        ScalarFunc::TimeDiff => ("TIMEDIFF", Arity::Exactly(2)),
        ScalarFunc::Trim => ("TRIM", Arity::OneOrTwo),
        ScalarFunc::Trunc => ("TRUNC", Arity::Exactly(1)),
        ScalarFunc::TypeOf => ("TYPEOF", Arity::Exactly(1)),
        ScalarFunc::Unhex => ("UNHEX", Arity::OneOrTwo),
        ScalarFunc::Unicode => ("UNICODE", Arity::Exactly(1)),
        ScalarFunc::Unistr => ("UNISTR", Arity::Exactly(1)),
        ScalarFunc::UnistrQuote => ("UNISTR_QUOTE", Arity::Exactly(1)),
        ScalarFunc::Unlikely => ("UNLIKELY", Arity::Exactly(1)),
        ScalarFunc::Upper => ("UPPER", Arity::Exactly(1)),
        ScalarFunc::ZeroBlob => ("ZEROBLOB", Arity::Exactly(1)),
        _ => {
            assert(""@ =~= Seq::<char>::empty()) by {
                reveal_strlit("");
            }
            ("", Arity::Any)
        },
    }
}

/// Whether a function takes a number of arguments.
pub open spec fn takes(a: Arity, n: nat) -> bool {
    match a {
        Arity::Exactly(k) => n == k,
        Arity::OneOrTwo => n == 1 || n == 2,
        Arity::TwoOrThree => n == 2 || n == 3,
        Arity::AtLeastOne => n >= 1,
        Arity::AtLeastTwo => n >= 2,
        Arity::TwoOrMore => n >= 2,
        Arity::Even => n % 2 == 0,
        Arity::Odd => n % 2 == 1,
        Arity::Any => true,
    }
}

/// What is said of a wrong number of arguments.
pub open spec fn arity_message(name: Seq<char>, a: Arity, n: nat) -> Seq<char> {
    match a {
        Arity::Exactly(k) => name + " expects "@ + nat_text(k as nat) + (if k == 1 {
            " argument"@
        } else {
            " arguments"@
        }) + " but got "@ + nat_text(n),
        Arity::OneOrTwo => name + " expects 1 or 2 arguments but got "@ + nat_text(n),
        Arity::TwoOrThree => name + " expects 2 or 3 arguments but got "@ + nat_text(n),
        Arity::AtLeastOne => name + " expects at least 1 argument"@,
        Arity::AtLeastTwo => name + " expects at least 2 arguments"@,
        Arity::TwoOrMore => name + " expects at least 2 arguments but got "@ + nat_text(n),
        Arity::Even => name + "() requires an even number of arguments"@,
        Arity::Odd => name + "() needs an odd number of arguments"@,
        Arity::Any => Seq::empty(),
    }
}

fn arity_text(name: &str, a: Arity, n: usize) -> (r: String)
    ensures
        r@ == arity_message(name@, a, n as nat),
{
    let got = u64_text(n as u64);
    let mut out = name.to_owned();
    match a {
        Arity::Exactly(k) => {
            out.append(" expects ");
            out.append(u64_text(k as u64).as_str());
            if k == 1 {
                out.append(" argument");
            } else {
                out.append(" arguments");
            }
            out.append(" but got ");
            out.append(got.as_str());
        },
        Arity::OneOrTwo => {
            out.append(" expects 1 or 2 arguments but got ");
            out.append(got.as_str());
        },
        Arity::TwoOrThree => {
            out.append(" expects 2 or 3 arguments but got ");
            out.append(got.as_str());
        },
        Arity::AtLeastOne => {
            out.append(" expects at least 1 argument");
        },
        Arity::AtLeastTwo => {
            out.append(" expects at least 2 arguments");
        },
        Arity::TwoOrMore => {
            out.append(" expects at least 2 arguments but got ");
            out.append(got.as_str());
        },
        Arity::Even => {
            out.append("() requires an even number of arguments");
        },
        Arity::Odd => {
            out.append("() needs an odd number of arguments");
        },
        Arity::Any => {
            out = String::new();
        },
    }
    out
}

/// Whether a function takes a number of arguments, or why not.
pub open spec fn arity_check(func: ScalarFunc, n: nat) -> Result<(), StopView> {
    if takes(arity(func).1, n) {
        Ok(())
    } else {
        Err(storage_stop(arity_message(arity(func).0, arity(func).1, n)))
    }
}

/// Checks the number of arguments of a function.
pub fn expect_arity(func: ScalarFunc, n: usize) -> (r: Eval<()>)
    ensures
        crate::sqlite3::reals::plain_view(r) == arity_check(func, n as nat),
{
    let (name, a): (&'static str, Arity) = arity_of(func);
    let fits = match a {
        Arity::Exactly(k) => n == k,
        Arity::OneOrTwo => n == 1 || n == 2,
        Arity::TwoOrThree => n == 2 || n == 3,
        Arity::AtLeastOne => n >= 1,
        Arity::AtLeastTwo => n >= 2,
        Arity::TwoOrMore => n >= 2,
        Arity::Even => n % 2 == 0,
        Arity::Odd => n % 2 == 1,
        Arity::Any => true,
    };
    if fits {
        Ok(())
    } else {
        Err(fail(arity_text(name, a, n).as_str()))
    }
}

/// The operation on reals that a function of one number is, if it is one.
pub open spec fn unary_op(func: ScalarFunc) -> Option<RealOp> {
    match func {
        ScalarFunc::Sqrt => Some(RealOp::Sqrt),
        ScalarFunc::Exp => Some(RealOp::Exp),
        ScalarFunc::Sin => Some(RealOp::Sin),
        ScalarFunc::Cos => Some(RealOp::Cos),
        ScalarFunc::Tan => Some(RealOp::Tan),
        ScalarFunc::Sinh => Some(RealOp::Sinh),
        ScalarFunc::Cosh => Some(RealOp::Cosh),
        ScalarFunc::Tanh => Some(RealOp::Tanh),
        ScalarFunc::Acos => Some(RealOp::Acos),
        ScalarFunc::Asin => Some(RealOp::Asin),
        ScalarFunc::Atan => Some(RealOp::Atan),
        ScalarFunc::Acosh => Some(RealOp::Acosh),
        ScalarFunc::Asinh => Some(RealOp::Asinh),
        ScalarFunc::Atanh => Some(RealOp::Atanh),
        ScalarFunc::Ln => Some(RealOp::Ln),
        ScalarFunc::Log10 => Some(RealOp::Log10),
        ScalarFunc::Log2 => Some(RealOp::Log2),
        ScalarFunc::Degrees => Some(RealOp::Degrees),
        ScalarFunc::Radians => Some(RealOp::Radians),
        ScalarFunc::Log => Some(RealOp::Log10),
        _ => None,
    }
}

fn unary_op_of(func: ScalarFunc) -> (r: Option<RealOp>)
    ensures
        r == unary_op(func),
{
    match func {
        ScalarFunc::Sqrt => Some(RealOp::Sqrt),
        ScalarFunc::Exp => Some(RealOp::Exp),
        ScalarFunc::Sin => Some(RealOp::Sin),
        ScalarFunc::Cos => Some(RealOp::Cos),
        ScalarFunc::Tan => Some(RealOp::Tan),
        ScalarFunc::Sinh => Some(RealOp::Sinh),
        ScalarFunc::Cosh => Some(RealOp::Cosh),
        ScalarFunc::Tanh => Some(RealOp::Tanh),
        ScalarFunc::Acos => Some(RealOp::Acos),
        ScalarFunc::Asin => Some(RealOp::Asin),
        ScalarFunc::Atan => Some(RealOp::Atan),
        ScalarFunc::Acosh => Some(RealOp::Acosh),
        ScalarFunc::Asinh => Some(RealOp::Asinh),
        ScalarFunc::Atanh => Some(RealOp::Atanh),
        ScalarFunc::Ln => Some(RealOp::Ln),
        ScalarFunc::Log10 => Some(RealOp::Log10),
        ScalarFunc::Log2 => Some(RealOp::Log2),
        ScalarFunc::Degrees => Some(RealOp::Degrees),
        ScalarFunc::Radians => Some(RealOp::Radians),
        ScalarFunc::Log => Some(RealOp::Log10),
        _ => None,
    }
}

/// The name of a function that no index term can use.
pub open spec fn unsupported_name(func: ScalarFunc) -> Seq<char> {
    match func {
        ScalarFunc::Changes => "Changes"@,
        ScalarFunc::TotalChanges => "TotalChanges"@,
        ScalarFunc::Random => "Random"@,
        ScalarFunc::RandomBlob => "RandomBlob"@,
        ScalarFunc::SqliteSourceId => "SqliteSourceId"@,
        ScalarFunc::SqliteVersion => "SqliteVersion"@,
        ScalarFunc::LastInsertRowId => "LastInsertRowId"@,
        _ => Seq::empty(),
    }
}

fn unsupported(func: ScalarFunc) -> (r: &'static str)
    ensures
        r@ == unsupported_name(func),
{
    match func {
        ScalarFunc::Changes => "Changes",
        ScalarFunc::TotalChanges => "TotalChanges",
        ScalarFunc::Random => "Random",
        ScalarFunc::RandomBlob => "RandomBlob",
        ScalarFunc::SqliteSourceId => "SqliteSourceId",
        ScalarFunc::SqliteVersion => "SqliteVersion",
        ScalarFunc::LastInsertRowId => "LastInsertRowId",
        _ => {
            assert(""@ =~= Seq::<char>::empty()) by {
                reveal_strlit("");
            }
            ""
        },
    }
}

/// The ratio of a circle's circumference to its diameter.
pub const PI: u64 = 0x4009_21FB_5444_2D18;

/// A text, or the reason that there is none.
pub open spec fn text_value(r: Result<Seq<char>, StopView>) -> Result<SqlValue, StopView> {
    match r {
        Ok(t) => Ok(SqlValue::Text(t)),
        Err(s) => Err(s),
    }
}

fn as_text(r: Eval<String>) -> (v: Eval<DbValue>)
    ensures
        stop_view(v) == text_value(stop_view(r)),
{
    match r {
        Ok(t) => Ok(DbValue::Text(t)),
        Err(s) => Err(s),
    }
}

/// The first value from a position on that is not null, or null.
pub open spec fn first_known(args: Seq<SqlValue>, i: int) -> SqlValue
    decreases args.len() - i,
{
    if i < 0 || i >= args.len() {
        SqlValue::Null
    } else if args[i] is Null {
        first_known(args, i + 1)
    } else {
        args[i]
    }
}

fn find_known(args: &[DbValue]) -> (r: DbValue)
    ensures
        r@ == first_known(args.deep_view(), 0),
{
    let ghost a = args.deep_view();
    let mut i: usize = 0;
    while i < args.len()
        invariant
            a == args.deep_view(),
            i <= args@.len(),
            first_known(a, i as int) == first_known(a, 0),
        decreases args@.len() - i,
    {
        assert(a[i as int] == args@[i as int]@);
        match &args[i] {
            DbValue::Null => {},
            v => {
                return v.copy();
            },
        }
        i = i + 1;
    }
    DbValue::Null
}

/// What a function on texts or blobs gives, if it is one.
pub open spec fn text_function(f: Facts, func: ScalarFunc, args: Seq<SqlValue>, cased_like: bool) -> Option<
    Result<SqlValue, StopView>,
> {
    match func {
        ScalarFunc::Length => Some(length_of(f, args[0])),
        ScalarFunc::OctetLength => Some(octets_of(f, args[0])),
        ScalarFunc::Lower => Some(cased(f, args[0], false)),
        ScalarFunc::Upper => Some(cased(f, args[0], true)),
        ScalarFunc::Hex => Some(hex_of_value(f, args[0])),
        ScalarFunc::Char => Some(chars_from(f, args, 0, Seq::empty())),
        ScalarFunc::Concat => Some(concat_from(f, args, 0, Seq::empty())),
        ScalarFunc::ConcatWs => Some(parted(f, args)),
        ScalarFunc::Printf => Some(printed(f, args)),
        ScalarFunc::Unhex => Some(unhexed(f, args)),
        ScalarFunc::Unistr => Some(
            if args[0] is Null {
                Ok(SqlValue::Null)
            } else {
                match value_text(f, args[0]) {
                    Err(s) => Err(s),
                    Ok(t) => text_value(unescaped(t)),
                }
            },
        ),
        ScalarFunc::UnistrQuote => Some(text_value(unistr_literal(f, args[0]))),
        ScalarFunc::Substr => Some(substring(f, args)),
        ScalarFunc::Trim => Some(trimmed_value(f, args, TrimSide::Both)),
        ScalarFunc::LTrim => Some(trimmed_value(f, args, TrimSide::Start)),
        ScalarFunc::RTrim => Some(trimmed_value(f, args, TrimSide::End)),
        ScalarFunc::Instr => Some(position_of(f, args[0], args[1])),
        ScalarFunc::Replace => Some(replaced_value(f, args)),
        ScalarFunc::LikeFunc => Some(like_value(f, args, cased_like)),
        ScalarFunc::GlobFunc => Some(pattern_value(f, args[0], args[1], false)),
        ScalarFunc::RegexpFunc => Some(pattern_value(f, args[0], args[1], true)),
        ScalarFunc::Unicode => Some(first_code(f, args[0])),
        ScalarFunc::Quote => Some(text_value(quote_of(f, args[0]))),
        _ => None,
    }
}

fn evaluate_text_function(facts: &RealFacts, func: ScalarFunc, args: &[DbValue], cased_like: bool) -> (r:
    Option<Eval<DbValue>>)
    requires
        takes(arity(func).1, args@.len()),
    ensures
        match r {
            Some(v) => text_function(facts@, func, args.deep_view(), cased_like) == Some(
                stop_view(v),
            ),
            None => text_function(facts@, func, args.deep_view(), cased_like) is None,
        },
{
    let ghost a = args.deep_view();
    assert(args@.len() >= 1 ==> a[0] == args@[0]@);
    assert(args@.len() >= 2 ==> a[1] == args@[1]@);
    match func {
        ScalarFunc::Length => Some(length_value(facts, &args[0])),
        ScalarFunc::OctetLength => Some(octet_length_value(facts, &args[0])),
        ScalarFunc::Lower => Some(case_value(facts, &args[0], false)),
        ScalarFunc::Upper => Some(case_value(facts, &args[0], true)),
        ScalarFunc::Hex => Some(hex_of_db_value(facts, &args[0])),
        ScalarFunc::Char => Some(char_values(facts, args)),
        ScalarFunc::Concat => Some(concat_values(facts, args)),
        ScalarFunc::ConcatWs => Some(concat_ws_values(facts, args)),
        ScalarFunc::Printf => Some(printf_values(facts, args)),
        ScalarFunc::Unhex => Some(unhex_values(facts, args)),
        ScalarFunc::Unistr => Some(unistr_value(facts, &args[0])),
        ScalarFunc::UnistrQuote => Some(as_text(sqlite_unistr_quote(facts, &args[0]))),
        ScalarFunc::Substr => Some(substr_values(facts, args)),
        ScalarFunc::Trim => Some(evaluate_trim_family_function(facts, args, TrimSide::Both)),
        ScalarFunc::LTrim => Some(evaluate_trim_family_function(facts, args, TrimSide::Start)),
        ScalarFunc::RTrim => Some(evaluate_trim_family_function(facts, args, TrimSide::End)),
        ScalarFunc::Instr => Some(sqlite_instr_value(facts, &args[0], &args[1])),
        ScalarFunc::Replace => Some(replace_values(facts, args)),
        ScalarFunc::LikeFunc => Some(like_values(facts, args, cased_like)),
        ScalarFunc::GlobFunc => Some(match_pattern(facts, &args[0], &args[1], false)),
        ScalarFunc::RegexpFunc => Some(match_pattern(facts, &args[0], &args[1], true)),
        ScalarFunc::Unicode => Some(unicode_value(facts, &args[0])),
        ScalarFunc::Quote => Some(as_text(quote_value(facts, &args[0]))),
        _ => None,
    }
}

fn unistr_value(facts: &RealFacts, v: &DbValue) -> (r: Eval<DbValue>)
    ensures
        stop_view(r) == (if v@ is Null {
            Ok(SqlValue::Null)
        } else {
            match value_text(facts@, v@) {
                Err(s) => Err(s),
                Ok(t) => text_value(unescaped(t)),
            }
        }),
{
    if let DbValue::Null = v {
        return Ok(DbValue::Null);
    }
    let t = coerce_text_like_value(facts, v)?;
    as_text(sqlite_unistr(t.as_str()))
}

/// What a function on numbers or moments gives, if it is one.
pub open spec fn number_function(f: Facts, func: ScalarFunc, args: Seq<SqlValue>) -> Option<
    Result<SqlValue, StopView>,
> {
    match func {
        ScalarFunc::Abs => Some(absolute(f, args[0])),
        ScalarFunc::Sign => Some(sign_of(f, args[0])),
        ScalarFunc::Round => Some(rounded(f, args)),
        ScalarFunc::ZeroBlob => Some(zeros_of(f, args[0])),
        ScalarFunc::Mod => Some(binary_math(f, RealOp::Remainder, args[0], args[1])),
        ScalarFunc::Ceil => Some(whole_of(f, RealOp::Ceil, args[0])),
        ScalarFunc::Ceiling => Some(whole_of(f, RealOp::Ceil, args[0])),
        ScalarFunc::Floor => Some(whole_of(f, RealOp::Floor, args[0])),
        ScalarFunc::Trunc => Some(whole_of(f, RealOp::Truncate, args[0])),
        ScalarFunc::Pi => Some(Ok(SqlValue::Real(PI))),
        ScalarFunc::Power => Some(binary_math(f, RealOp::Power, args[0], args[1])),
        ScalarFunc::Atan2 => Some(binary_math(f, RealOp::Atan2, args[0], args[1])),
        ScalarFunc::Log => Some(
            if args.len() == 1 {
                unary_math(f, RealOp::Log10, args[0])
            } else {
                binary_math(f, RealOp::Logarithm, args[0], args[1])
            },
        ),
        ScalarFunc::Date => Some(moment_text(f, MomentPart::Date, args)),
        ScalarFunc::Time => Some(moment_text(f, MomentPart::Time, args)),
        ScalarFunc::DateTime => Some(moment_text(f, MomentPart::DateTime, args)),
        ScalarFunc::TimeDiff => Some(moments_apart(f, args)),
        ScalarFunc::Strftime => Some(shown(f, args)),
        ScalarFunc::JulianDay => Some(julian_of_args(f, args)),
        ScalarFunc::UnixEpoch => Some(epoch_of_args(f, args)),
        _ => match unary_op(func) {
            Some(op) => Some(unary_math(f, op, args[0])),
            None => None,
        },
    }
}

fn evaluate_number_function(facts: &RealFacts, func: ScalarFunc, args: &[DbValue]) -> (r: Option<
    Eval<DbValue>,
>)
    requires
        takes(arity(func).1, args@.len()),
    ensures
        match r {
            Some(v) => number_function(facts@, func, args.deep_view()) == Some(stop_view(v)),
            None => number_function(facts@, func, args.deep_view()) is None,
        },
{
    let ghost a = args.deep_view();
    assert(args@.len() >= 1 ==> a[0] == args@[0]@);
    assert(args@.len() >= 2 ==> a[1] == args@[1]@);
    match func {
        ScalarFunc::Abs => Some(abs_value(facts, &args[0])),
        ScalarFunc::Sign => Some(sign_value(facts, &args[0])),
        ScalarFunc::Round => Some(round_values(facts, args)),
        ScalarFunc::ZeroBlob => Some(zeroblob_value(facts, &args[0])),
        ScalarFunc::Mod => Some(
            sqlite_binary_math_function(facts, RealOp::Remainder, &args[0], &args[1]),
        ),
        ScalarFunc::Ceil => Some(whole_value(facts, RealOp::Ceil, &args[0])),
        ScalarFunc::Ceiling => Some(whole_value(facts, RealOp::Ceil, &args[0])),
        ScalarFunc::Floor => Some(whole_value(facts, RealOp::Floor, &args[0])),
        ScalarFunc::Trunc => Some(whole_value(facts, RealOp::Truncate, &args[0])),
        ScalarFunc::Pi => Some(Ok(DbValue::Real(PI))),
        ScalarFunc::Power => Some(
            sqlite_binary_math_function(facts, RealOp::Power, &args[0], &args[1]),
        ),
        ScalarFunc::Atan2 => Some(
            sqlite_binary_math_function(facts, RealOp::Atan2, &args[0], &args[1]),
        ),
        ScalarFunc::Log => {
            if args.len() == 1 {
                Some(sqlite_unary_math_function(facts, RealOp::Log10, &args[0]))
            } else {
                Some(sqlite_binary_math_function(facts, RealOp::Logarithm, &args[0], &args[1]))
            }
        },
        ScalarFunc::Date => Some(moment_values(facts, MomentPart::Date, args)),
        ScalarFunc::Time => Some(moment_values(facts, MomentPart::Time, args)),
        ScalarFunc::DateTime => Some(moment_values(facts, MomentPart::DateTime, args)),
        ScalarFunc::TimeDiff => Some(timediff_values(facts, args)),
        ScalarFunc::Strftime => Some(strftime_values(facts, args)),
        ScalarFunc::JulianDay => Some(julianday_values(facts, args)),
        ScalarFunc::UnixEpoch => Some(unixepoch_values(facts, args)),
        _ => match unary_op_of(func) {
            Some(op) => Some(sqlite_unary_math_function(facts, op, &args[0])),
            None => None,
        },
    }
}

/// What a function on JSON gives, if it is one.
pub open spec fn json_function(f: Facts, func: ScalarFunc, args: Seq<SqlValue>) -> Option<
    Result<SqlValue, StopView>,
> {
    match func {
        ScalarFunc::Json => Some(normalized(f, args[0])),
        ScalarFunc::JsonValid => Some(valid_value(f, args)),
        ScalarFunc::JsonErrorPosition => Some(error_position(f, args[0])),
        ScalarFunc::JsonPretty => Some(pretty_value(f, args)),
        ScalarFunc::JsonQuote => Some(text_value(json_literal(f, args[0]))),
        ScalarFunc::JsonExtract => Some(extracted(f, args)),
        ScalarFunc::JsonType => Some(type_value(f, args)),
        ScalarFunc::JsonArray => Some(array_from(f, args, 0, Seq::empty())),
        ScalarFunc::JsonObject => Some(object_from(f, args, 0, Seq::empty())),
        ScalarFunc::JsonArrayLength => Some(array_length(f, args)),
        ScalarFunc::JsonRemove => Some(removed_value(f, args)),
        ScalarFunc::JsonSet => Some(written_value(f, args, JsonWriteMode::Put)),
        ScalarFunc::JsonInsert => Some(written_value(f, args, JsonWriteMode::Insert)),
        ScalarFunc::JsonReplace => Some(written_value(f, args, JsonWriteMode::Replace)),
        ScalarFunc::JsonPatch => Some(patched(f, args[0], args[1])),
        _ => None,
    }
}

fn evaluate_json_function(facts: &RealFacts, func: ScalarFunc, args: &[DbValue]) -> (r: Option<
    Eval<DbValue>,
>)
    requires
        takes(arity(func).1, args@.len()),
    ensures
        match r {
            Some(v) => json_function(facts@, func, args.deep_view()) == Some(stop_view(v)),
            None => json_function(facts@, func, args.deep_view()) is None,
        },
{
    let ghost a = args.deep_view();
    assert(args@.len() >= 1 ==> a[0] == args@[0]@);
    assert(args@.len() >= 2 ==> a[1] == args@[1]@);
    match func {
        ScalarFunc::Json => Some(json_normalize_value(facts, &args[0])),
        ScalarFunc::JsonValid => Some(json_valid_values(facts, args)),
        ScalarFunc::JsonErrorPosition => Some(json_error_position_value(facts, &args[0])),
        ScalarFunc::JsonPretty => Some(json_pretty_value(facts, args)),
        ScalarFunc::JsonQuote => Some(as_text(json_quote_value(facts, &args[0]))),
        ScalarFunc::JsonExtract => Some(json_extract_values(facts, args)),
        ScalarFunc::JsonType => Some(json_type_value(facts, args)),
        ScalarFunc::JsonArray => Some(json_array_value(facts, args)),
        ScalarFunc::JsonObject => Some(json_object_value(facts, args)),
        ScalarFunc::JsonArrayLength => Some(json_array_length_value(facts, args)),
        ScalarFunc::JsonRemove => Some(json_remove_value(facts, args)),
        ScalarFunc::JsonSet => Some(json_write_value(facts, args, JsonWriteMode::Put)),
        ScalarFunc::JsonInsert => Some(json_write_value(facts, args, JsonWriteMode::Insert)),
        ScalarFunc::JsonReplace => Some(json_write_value(facts, args, JsonWriteMode::Replace)),
        ScalarFunc::JsonPatch => Some(json_patch_value(facts, &args[0], &args[1])),
        _ => None,
    }
}

/// What a function that only chooses or describes gives; the others cannot stand in an index
/// term.
pub open spec fn plain_function(f: Facts, func: ScalarFunc, args: Seq<SqlValue>) -> Result<
    SqlValue,
    StopView,
> {
    match func {
        ScalarFunc::TypeOf => Ok(SqlValue::Text(storage_class(args[0]))),
        ScalarFunc::Subtype => Ok(SqlValue::Integer(0)),
        ScalarFunc::Likely => Ok(args[0]),
        ScalarFunc::Unlikely => Ok(args[0]),
        ScalarFunc::Likelihood => Ok(args[0]),
        ScalarFunc::MatchFunc => Err(
            storage_stop("unable to use function MATCH in the requested context"@),
        ),
        ScalarFunc::NullIf => Ok(
            if args[0] == args[1] {
                SqlValue::Null
            } else {
                args[0]
            },
        ),
        ScalarFunc::IfNull => Ok(
            if args[0] is Null {
                args[1]
            } else {
                args[0]
            },
        ),
        ScalarFunc::Coalesce => Ok(first_known(args, 0)),
        ScalarFunc::SqliteLog => Ok(SqlValue::Null),
        ScalarFunc::MinScalar => extreme(f, args, true),
        ScalarFunc::MaxScalar => extreme(f, args, false),
        _ => Err(
            storage_stop(
                "expression index term uses unsupported scalar function "@ + unsupported_name(func),
            ),
        ),
    }
}

fn evaluate_plain_function(facts: &RealFacts, func: ScalarFunc, args: &[DbValue]) -> (r: Eval<
    DbValue,
>)
    requires
        takes(arity(func).1, args@.len()),
    ensures
        stop_view(r) == plain_function(facts@, func, args.deep_view()),
{
    let ghost a = args.deep_view();
    assert(args@.len() >= 1 ==> a[0] == args@[0]@);
    assert(args@.len() >= 2 ==> a[1] == args@[1]@);
    match func {
        ScalarFunc::TypeOf => Ok(DbValue::Text(class_of(&args[0]).to_owned())),
        ScalarFunc::Subtype => Ok(DbValue::Integer(0)),
        ScalarFunc::Likely => Ok(args[0].copy()),
        ScalarFunc::Unlikely => Ok(args[0].copy()),
        ScalarFunc::Likelihood => Ok(args[0].copy()),
        ScalarFunc::MatchFunc => Err(
            fail("unable to use function MATCH in the requested context"),
        ),
        ScalarFunc::NullIf => {
            if args[0].same(&args[1]) {
                Ok(DbValue::Null)
            } else {
                Ok(args[0].copy())
            }
        },
        ScalarFunc::IfNull => {
            if let DbValue::Null = &args[0] {
                Ok(args[1].copy())
            } else {
                Ok(args[0].copy())
            }
        },
        ScalarFunc::Coalesce => Ok(find_known(args)),
        ScalarFunc::SqliteLog => Ok(DbValue::Null),
        ScalarFunc::MinScalar => extreme_value(facts, args, true),
        ScalarFunc::MaxScalar => extreme_value(facts, args, false),
        _ => {
            let mut message =
                "expression index term uses unsupported scalar function ".to_owned();
            message.append(unsupported(func));
            Err(fail(message.as_str()))
        },
    }
}

fn extreme_value(facts: &RealFacts, args: &[DbValue], least: bool) -> (r: Eval<DbValue>)
    requires
        args@.len() > 0,
    ensures
        stop_view(r) == extreme(facts@, args.deep_view(), least),
{
    let copied = copy_values(args);
    assert(copied.deep_view().len() == copied@.len());
    assert(args.deep_view().len() == args@.len());
    evaluate_min_max_scalar_function(facts, &copied, least)
}

/// What a function gives of its arguments.
pub open spec fn applied(f: Facts, func: ScalarFunc, args: Seq<SqlValue>, cased_like: bool) -> Result<
    SqlValue,
    StopView,
> {
    match arity_check(func, args.len()) {
        Err(s) => Err(s),
        Ok(_) => match text_function(f, func, args, cased_like) {
            Some(v) => v,
            None => match number_function(f, func, args) {
                Some(v) => v,
                None => match json_function(f, func, args) {
                    Some(v) => v,
                    None => plain_function(f, func, args),
                },
            },
        },
    }
}

/// Evaluates a function. `cased_like` says whether `LIKE` tells upper from lower case.
pub fn evaluate_scalar_function(
    facts: &RealFacts,
    func: ScalarFunc,
    args: &[DbValue],
    cased_like: bool,
) -> (r: Eval<DbValue>)
    ensures
        stop_view(r) == applied(facts@, func, args.deep_view(), cased_like),
{
    assert(args.deep_view().len() == args@.len());
    expect_arity(func, args.len())?;
    match evaluate_text_function(facts, func, args, cased_like) {
        Some(v) => {
            return v;
        },
        None => {},
    }
    match evaluate_number_function(facts, func, args) {
        Some(v) => {
            return v;
        },
        None => {},
    }
    match evaluate_json_function(facts, func, args) {
        Some(v) => {
            return v;
        },
        None => {},
    }
    evaluate_plain_function(facts, func, args)
}

} // verus!
