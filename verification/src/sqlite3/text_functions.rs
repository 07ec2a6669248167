//! Functions of expressions on texts and blobs.

use vstd::prelude::*;
use vstd::utf8::encode_utf8;

use crate::common::bytes::slice_vec;
use crate::common::checks::TrimSide;
use crate::common::text::{char_vec, text_of};
use crate::common::value::{DbValue, SqlValue};
use crate::sqlite3::patterns::{
    escape_char, glob, like, like_escape_char, matches_glob_pattern, matches_like_pattern, regexp,
    sqlite_regexp_matches,
};
use crate::sqlite3::printf::{formatted, integer_argument, sqlite_printf, sqlite_printf_integer_arg};
use crate::sqlite3::quoting::{literal, sqlite_quote_value};
use crate::sqlite3::reals::{stop_view, Eval, Facts, RealFacts, StopView};
use crate::sqlite3::strings::{
    ascii_lower, ascii_upper, before_nul, blob_position, byte_len, find_from, found_from, has_char,
    hex_nibble, hex_of, hex_text, hex_value, instr_blob, lowered, replace, replaced, strip_end,
    strip_start, stripped_end, stripped_start, substr_bounds, substr_range, text_before_nul,
    text_bytes, uppered,
};
use crate::sqlite3::values::{cast_to_integer, coerce_text_like_value, integer_cast, value_text};

verus! {

/// What `LENGTH` gives of a value: characters up to a zero character, or bytes of a blob.
pub open spec fn length_of(f: Facts, v: SqlValue) -> Result<SqlValue, StopView> {
    match v {
        SqlValue::Null => Ok(SqlValue::Null),
        SqlValue::Blob(b) => Ok(SqlValue::Integer(b.len() as i64)),
        _ => match value_text(f, v) {
            Ok(t) => Ok(SqlValue::Integer(before_nul(t).len() as i64)),
            Err(s) => Err(s),
        },
    }
}

pub fn length_value(facts: &RealFacts, v: &DbValue) -> (r: Eval<DbValue>)
    ensures
        stop_view(r) == length_of(facts@, v@),
{
    match v {
        DbValue::Null => Ok(DbValue::Null),
        DbValue::Blob(b) => Ok(DbValue::Integer(b.len() as i64)),
        _ => {
            let t = coerce_text_like_value(facts, v)?;
            let head = text_before_nul(t.as_str());
            Ok(DbValue::Integer(char_vec(head.as_str()).len() as i64))
        },
    }
}

/// What `OCTET_LENGTH` gives of a value: the bytes of its text, or of the blob.
pub open spec fn octets_of(f: Facts, v: SqlValue) -> Result<SqlValue, StopView> {
    match v {
        SqlValue::Null => Ok(SqlValue::Null),
        SqlValue::Blob(b) => Ok(SqlValue::Integer(b.len() as i64)),
        SqlValue::Boolean(_) => Ok(SqlValue::Integer(1)),
        _ => match value_text(f, v) {
            Ok(t) => Ok(SqlValue::Integer(encode_utf8(t).len() as i64)),
            Err(s) => Err(s),
        },
    }
}

pub fn octet_length_value(facts: &RealFacts, v: &DbValue) -> (r: Eval<DbValue>)
    ensures
        stop_view(r) == octets_of(facts@, v@),
{
    match v {
        DbValue::Null => Ok(DbValue::Null),
        DbValue::Blob(b) => Ok(DbValue::Integer(b.len() as i64)),
        DbValue::Boolean(_) => Ok(DbValue::Integer(1)),
        _ => {
            let t = coerce_text_like_value(facts, v)?;
            Ok(DbValue::Integer(byte_len(t.as_str()) as i64))
        },
    }
}

/// What `LOWER` or `UPPER` gives of a value.
pub open spec fn cased(f: Facts, v: SqlValue, upper: bool) -> Result<SqlValue, StopView> {
    if v is Null {
        Ok(SqlValue::Null)
    } else {
        match value_text(f, v) {
            Ok(t) => Ok(
                SqlValue::Text(
                    if upper {
                        uppered(t)
                    } else {
                        lowered(t)
                    },
                ),
            ),
            Err(s) => Err(s),
        }
    }
}

pub fn case_value(facts: &RealFacts, v: &DbValue, upper: bool) -> (r: Eval<DbValue>)
    ensures
        stop_view(r) == cased(facts@, v@, upper),
{
    if let DbValue::Null = v {
        return Ok(DbValue::Null);
    }
    let t = coerce_text_like_value(facts, v)?;
    if upper {
        Ok(DbValue::Text(ascii_upper(t.as_str())))
    } else {
        Ok(DbValue::Text(ascii_lower(t.as_str())))
    }
}

/// What `HEX` gives of a value: the digits of the blob or of the bytes of its text.
pub open spec fn hex_of_value(f: Facts, v: SqlValue) -> Result<SqlValue, StopView> {
    match v {
        SqlValue::Null => Ok(SqlValue::Text(Seq::empty())),
        SqlValue::Blob(b) => Ok(SqlValue::Text(hex_text(b))),
        _ => match value_text(f, v) {
            Ok(t) => Ok(SqlValue::Text(hex_text(encode_utf8(t)))),
            Err(s) => Err(s),
        },
    }
}

pub fn hex_of_db_value(facts: &RealFacts, v: &DbValue) -> (r: Eval<DbValue>)
    ensures
        stop_view(r) == hex_of_value(facts@, v@),
{
    match v {
        DbValue::Null => Ok(DbValue::Text(String::new())),
        DbValue::Blob(b) => Ok(DbValue::Text(hex_of(b.as_slice()))),
        _ => {
            let t = coerce_text_like_value(facts, v)?;
            Ok(DbValue::Text(hex_of(text_bytes(t.as_str()).as_slice())))
        },
    }
}

/// The texts of the values from a position on that are not null, written behind each other.
pub open spec fn concat_from(f: Facts, args: Seq<SqlValue>, i: int, out: Seq<char>) -> Result<
    SqlValue,
    StopView,
>
    decreases args.len() - i,
{
    if i < 0 || i >= args.len() {
        Ok(SqlValue::Text(out))
    } else if args[i] is Null {
        concat_from(f, args, i + 1, out)
    } else {
        match value_text(f, args[i]) {
            Ok(t) => concat_from(f, args, i + 1, out + t),
            Err(s) => Err(s),
        }
    }
}

pub fn concat_values(facts: &RealFacts, args: &[DbValue]) -> (r: Eval<DbValue>)
    ensures
        stop_view(r) == concat_from(facts@, args.deep_view(), 0, Seq::empty()),
{
    let ghost a = args.deep_view();
    let mut out = String::new();
    let mut i: usize = 0;
    while i < args.len()
        invariant
            a == args.deep_view(),
            i <= args@.len(),
            concat_from(facts@, a, i as int, out@) == concat_from(facts@, a, 0, Seq::empty()),
        decreases args@.len() - i,
    {
        assert(a[i as int] == args@[i as int]@);
        match &args[i] {
            DbValue::Null => {},
            v => {
                let t = coerce_text_like_value(facts, v)?;
                out.append(t.as_str());
            },
        }
        i = i + 1;
    }
    Ok(DbValue::Text(out))
}

/// The texts of the values from a position on that are not null, with a separator between
/// them.
pub open spec fn parted_from(
    f: Facts,
    separator: Seq<char>,
    args: Seq<SqlValue>,
    i: int,
    empty: bool,
    out: Seq<char>,
) -> Result<SqlValue, StopView>
    decreases args.len() - i,
{
    if i < 0 || i >= args.len() {
        Ok(SqlValue::Text(out))
    } else if args[i] is Null {
        parted_from(f, separator, args, i + 1, empty, out)
    } else {
        match value_text(f, args[i]) {
            Ok(t) => parted_from(
                f,
                separator,
                args,
                i + 1,
                false,
                if empty {
                    out + t
                } else {
                    out + separator + t
                },
            ),
            Err(s) => Err(s),
        }
    }
}

/// What `CONCAT_WS` gives: the first value is the separator.
pub open spec fn parted(f: Facts, args: Seq<SqlValue>) -> Result<SqlValue, StopView> {
    if args[0] is Null {
        Ok(SqlValue::Null)
    } else {
        match value_text(f, args[0]) {
            Ok(t) => parted_from(f, t, args, 1, true, Seq::empty()),
            Err(s) => Err(s),
        }
    }
}

pub fn concat_ws_values(facts: &RealFacts, args: &[DbValue]) -> (r: Eval<DbValue>)
    requires
        args@.len() >= 1,
    ensures
        stop_view(r) == parted(facts@, args.deep_view()),
{
    let ghost a = args.deep_view();
    assert(a[0] == args@[0]@);
    if let DbValue::Null = &args[0] {
        return Ok(DbValue::Null);
    }
    let separator = coerce_text_like_value(facts, &args[0])?;
    let mut out = String::new();
    let mut empty = true;
    let mut i: usize = 1;
    while i < args.len()
        invariant
            a == args.deep_view(),
            1 <= i <= args@.len(),
            parted(facts@, a) == parted_from(facts@, separator@, a, 1, true, Seq::empty()),
            parted_from(facts@, separator@, a, i as int, empty, out@) == parted_from(
                facts@,
                separator@,
                a,
                1,
                true,
                Seq::empty(),
            ),
        decreases args@.len() - i,
    {
        assert(a[i as int] == args@[i as int]@);
        match &args[i] {
            DbValue::Null => {},
            v => {
                let t = coerce_text_like_value(facts, v)?;
                if !empty {
                    out.append(separator.as_str());
                }
                out.append(t.as_str());
                empty = false;
            },
        }
        i = i + 1;
    }
    Ok(DbValue::Text(out))
}

/// What `PRINTF` gives: the first value is the format.
pub open spec fn printed(f: Facts, args: Seq<SqlValue>) -> Result<SqlValue, StopView> {
    if args[0] is Null {
        Ok(SqlValue::Null)
    } else {
        match value_text(f, args[0]) {
            Err(s) => Err(s),
            Ok(t) => match formatted(f, t, args.skip(1)) {
                Err(s) => Err(s),
                Ok(Some(out)) => Ok(SqlValue::Text(out)),
                Ok(None) => Ok(SqlValue::Null),
            },
        }
    }
}

pub fn printf_values(facts: &RealFacts, args: &[DbValue]) -> (r: Eval<DbValue>)
    requires
        args@.len() >= 1,
    ensures
        stop_view(r) == printed(facts@, args.deep_view()),
{
    assert(args.deep_view()[0] == args@[0]@);
    if let DbValue::Null = &args[0] {
        return Ok(DbValue::Null);
    }
    let format = coerce_text_like_value(facts, &args[0])?;
    let rest = vstd::slice::slice_subrange(args, 1, args.len());
    assert(rest.deep_view() =~= args.deep_view().skip(1));
    match sqlite_printf(facts, format.as_str(), rest)? {
        Some(t) => Ok(DbValue::Text(t)),
        None => Ok(DbValue::Null),
    }
}

/// A text without the characters that `UNHEX` may ignore.
pub open spec fn unignored_from(s: Seq<char>, ignore: Seq<char>, i: int, out: Seq<char>) -> Seq<char>
    decreases s.len() - i,
{
    if i < 0 || i >= s.len() {
        out
    } else if ignore.contains(s[i]) && hex_value(s[i]) is None {
        unignored_from(s, ignore, i + 1, out)
    } else {
        unignored_from(s, ignore, i + 1, out.push(s[i]))
    }
}

/// The bytes that pairs of hexadecimal digits from a position on spell, if they do.
pub open spec fn unhexed_from(s: Seq<char>, i: int, out: Seq<u8>) -> Option<Seq<u8>>
    decreases s.len() - i,
{
    if i < 0 || i + 1 >= s.len() {
        if i == s.len() {
            Some(out)
        } else {
            None
        }
    } else {
        match (hex_value(s[i]), hex_value(s[i + 1])) {
            (Some(high), Some(low)) => unhexed_from(s, i + 2, out.push((16 * high + low) as u8)),
            _ => None,
        }
    }
}

/// What `UNHEX` gives: null where the text is not made of pairs of hexadecimal digits.
pub open spec fn unhexed(f: Facts, args: Seq<SqlValue>) -> Result<SqlValue, StopView> {
    if args[0] is Null {
        Ok(SqlValue::Null)
    } else {
        match value_text(f, args[0]) {
            Err(s) => Err(s),
            Ok(t) => if args.len() == 2 {
                if args[1] is Null {
                    Ok(SqlValue::Null)
                } else {
                    match value_text(f, args[1]) {
                        Err(s) => Err(s),
                        Ok(ignore) => Ok(
                            blob_or_null(
                                unhexed_from(unignored_from(t, ignore, 0, Seq::empty()), 0, Seq::empty()),
                            ),
                        ),
                    }
                }
            } else {
                Ok(blob_or_null(unhexed_from(t, 0, Seq::empty())))
            },
        }
    }
}

/// A blob, or null.
pub open spec fn blob_or_null(b: Option<Seq<u8>>) -> SqlValue {
    match b {
        Some(bytes) => SqlValue::Blob(bytes),
        None => SqlValue::Null,
    }
}

fn leave_out(s: &Vec<char>, ignore: &Vec<char>) -> (r: Vec<char>)
    ensures
        r@ == unignored_from(s@, ignore@, 0, Seq::empty()),
{
    let mut out: Vec<char> = Vec::new();
    let mut i: usize = 0;
    while i < s.len()
        invariant
            i <= s@.len(),
            unignored_from(s@, ignore@, i as int, out@) == unignored_from(
                s@,
                ignore@,
                0,
                Seq::empty(),
            ),
        decreases s@.len() - i,
    {
        let c = s[i];
        if !(has_char(ignore, c) && hex_nibble(c).is_none()) {
            out.push(c);
        }
        i = i + 1;
    }
    out
}

fn unhex_chars(s: &Vec<char>) -> (r: DbValue)
    ensures
        r@ == blob_or_null(unhexed_from(s@, 0, Seq::empty())),
{
    let total: usize = s.len();
    let mut out: Vec<u8> = Vec::new();
    let mut i: usize = 0;
    while i < total && total - i >= 2
        invariant
            i <= s@.len() == total,
            unhexed_from(s@, i as int, out@) == unhexed_from(s@, 0, Seq::empty()),
        decreases total - i,
    {
        match (hex_nibble(s[i]), hex_nibble(s[i + 1])) {
            (Some(high), Some(low)) => {
                out.push(16 * high + low);
            },
            _ => {
                return DbValue::Null;
            },
        }
        i = i + 2;
    }
    if i == total {
        DbValue::Blob(out)
    } else {
        DbValue::Null
    }
}

pub fn unhex_values(facts: &RealFacts, args: &[DbValue]) -> (r: Eval<DbValue>)
    requires
        1 <= args@.len() <= 2,
    ensures
        stop_view(r) == unhexed(facts@, args.deep_view()),
{
    assert(args.deep_view()[0] == args@[0]@);
    if let DbValue::Null = &args[0] {
        return Ok(DbValue::Null);
    }
    let t = coerce_text_like_value(facts, &args[0])?;
    let chars = char_vec(t.as_str());
    if args.len() == 2 {
        assert(args.deep_view()[1] == args@[1]@);
        if let DbValue::Null = &args[1] {
            return Ok(DbValue::Null);
        }
        let ignore = coerce_text_like_value(facts, &args[1])?;
        let kept = leave_out(&chars, &char_vec(ignore.as_str()));
        return Ok(unhex_chars(&kept));
    }
    Ok(unhex_chars(&chars))
}

/// The number that `SUBSTR` takes a value for; none of null.
pub open spec fn place_of(f: Facts, v: SqlValue) -> Result<Option<i64>, StopView> {
    if v is Null {
        Ok(None)
    } else {
        match integer_argument(f, v) {
            Ok(i) => Ok(Some(i)),
            Err(s) => Err(s),
        }
    }
}

/// The part of a run of items that `SUBSTR` takes.
pub open spec fn part_of<T>(s: Seq<T>, start: i64, length: Option<i64>) -> Seq<T> {
    let (from, to) = substr_range(
        s.len() as int,
        start as int,
        match length {
            Some(n) => Some(n as int),
            None => None,
        },
    );
    s.subrange(from, to)
}

/// The part of a value that `SUBSTR` takes: bytes of a blob, characters of a text.
pub open spec fn part_of_value(f: Facts, v: SqlValue, start: i64, length: Option<i64>) -> Result<
    SqlValue,
    StopView,
> {
    match v {
        SqlValue::Blob(b) => Ok(SqlValue::Blob(part_of(b, start, length))),
        _ => match value_text(f, v) {
            Ok(t) => Ok(SqlValue::Text(part_of(before_nul(t), start, length))),
            Err(s) => Err(s),
        },
    }
}

/// What `SUBSTR` gives.
pub open spec fn substring(f: Facts, args: Seq<SqlValue>) -> Result<SqlValue, StopView> {
    if args[0] is Null {
        Ok(SqlValue::Null)
    } else {
        match place_of(f, args[1]) {
            Err(s) => Err(s),
            Ok(None) => Ok(SqlValue::Null),
            Ok(Some(start)) => if args.len() == 3 {
                match place_of(f, args[2]) {
                    Err(s) => Err(s),
                    Ok(None) => Ok(SqlValue::Null),
                    Ok(Some(n)) => part_of_value(f, args[0], start, Some(n)),
                }
            } else {
                part_of_value(f, args[0], start, None)
            },
        }
    }
}

fn take_part(facts: &RealFacts, v: &DbValue, start: i64, length: Option<i64>) -> (r: Eval<DbValue>)
    ensures
        stop_view(r) == part_of_value(facts@, v@, start, length),
{
    match v {
        DbValue::Blob(b) => {
            let (from, to): (usize, usize) = substr_bounds(b.len(), start, length);
            Ok(DbValue::Blob(slice_vec(b.as_slice(), from, to)))
        },
        _ => {
            let t = coerce_text_like_value(facts, v)?;
            let head = text_before_nul(t.as_str());
            let chars = char_vec(head.as_str());
            let (from, to): (usize, usize) = substr_bounds(chars.len(), start, length);
            Ok(DbValue::Text(text_of(&chars, from, to)))
        },
    }
}

pub fn substr_values(facts: &RealFacts, args: &[DbValue]) -> (r: Eval<DbValue>)
    requires
        2 <= args@.len() <= 3,
    ensures
        stop_view(r) == substring(facts@, args.deep_view()),
{
    let ghost a = args.deep_view();
    assert(a[0] == args@[0]@ && a[1] == args@[1]@);
    if let DbValue::Null = &args[0] {
        return Ok(DbValue::Null);
    }
    if let DbValue::Null = &args[1] {
        return Ok(DbValue::Null);
    }
    let start: i64 = sqlite_printf_integer_arg(facts, &args[1])?;
    if args.len() == 3 {
        assert(a[2] == args@[2]@);
        if let DbValue::Null = &args[2] {
            return Ok(DbValue::Null);
        }
        let n: i64 = sqlite_printf_integer_arg(facts, &args[2])?;
        return take_part(facts, &args[0], start, Some(n));
    }
    take_part(facts, &args[0], start, None)
}

/// A text without the given characters at its ends.
pub open spec fn stripped(s: Seq<char>, set: Seq<char>, side: TrimSide) -> Seq<char> {
    match side {
        TrimSide::Both => stripped_end(stripped_start(s, set), set),
        TrimSide::Start => stripped_start(s, set),
        TrimSide::End => stripped_end(s, set),
    }
}

/// What `TRIM`, `LTRIM` and `RTRIM` give: without a second value they take away spaces.
pub open spec fn trimmed_value(f: Facts, args: Seq<SqlValue>, side: TrimSide) -> Result<
    SqlValue,
    StopView,
> {
    if args[0] is Null {
        Ok(SqlValue::Null)
    } else {
        match value_text(f, args[0]) {
            Err(s) => Err(s),
            Ok(t) => if args.len() == 2 {
                if args[1] is Null {
                    Ok(SqlValue::Null)
                } else {
                    match value_text(f, args[1]) {
                        Err(s) => Err(s),
                        Ok(set) => Ok(SqlValue::Text(stripped(t, set, side))),
                    }
                }
            } else {
                Ok(SqlValue::Text(stripped(t, " "@, side)))
            },
        }
    }
}

fn strip(s: &str, set: &str, side: TrimSide) -> (r: String)
    ensures
        r@ == stripped(s@, set@, side),
{
    match side {
        TrimSide::Both => {
            let head = strip_start(s, set);
            strip_end(head.as_str(), set)
        },
        TrimSide::Start => strip_start(s, set),
        TrimSide::End => strip_end(s, set),
    }
}

pub fn evaluate_trim_family_function(facts: &RealFacts, args: &[DbValue], side: TrimSide) -> (r:
    Eval<DbValue>)
    requires
        1 <= args@.len() <= 2,
    ensures
        stop_view(r) == trimmed_value(facts@, args.deep_view(), side),
{
    assert(args.deep_view()[0] == args@[0]@);
    if let DbValue::Null = &args[0] {
        return Ok(DbValue::Null);
    }
    let t = coerce_text_like_value(facts, &args[0])?;
    if args.len() == 2 {
        assert(args.deep_view()[1] == args@[1]@);
        if let DbValue::Null = &args[1] {
            return Ok(DbValue::Null);
        }
        let set = coerce_text_like_value(facts, &args[1])?;
        return Ok(DbValue::Text(strip(t.as_str(), set.as_str(), side)));
    }
    Ok(DbValue::Text(strip(t.as_str(), " ", side)))
}

/// What `INSTR` gives: the position of one value in another, counted from one.
pub open spec fn position_of(f: Facts, hay: SqlValue, needle: SqlValue) -> Result<
    SqlValue,
    StopView,
> {
    if hay is Null || needle is Null {
        Ok(SqlValue::Null)
    } else if hay is Blob && needle is Blob {
        Ok(SqlValue::Integer(blob_position(hay->Blob_0, needle->Blob_0) as i64))
    } else {
        match (value_text(f, hay), value_text(f, needle)) {
            (Err(s), _) => Err(s),
            (_, Err(s)) => Err(s),
            (Ok(h), Ok(n)) => Ok(
                SqlValue::Integer(
                    match found_from(h, n, 0) {
                        Some(i) => (i + 1) as i64,
                        None => 0,
                    },
                ),
            ),
        }
    }
}

pub fn sqlite_instr_value(facts: &RealFacts, hay: &DbValue, needle: &DbValue) -> (r: Eval<DbValue>)
    ensures
        stop_view(r) == position_of(facts@, hay@, needle@),
{
    match (hay, needle) {
        (DbValue::Null, _) => {
            return Ok(DbValue::Null);
        },
        (_, DbValue::Null) => {
            return Ok(DbValue::Null);
        },
        (DbValue::Blob(h), DbValue::Blob(n)) => {
            return Ok(DbValue::Integer(instr_blob(h.as_slice(), n.as_slice()) as i64));
        },
        _ => {},
    }
    let h = coerce_text_like_value(facts, hay)?;
    let n = coerce_text_like_value(facts, needle)?;
    match find_from(&char_vec(h.as_str()), &char_vec(n.as_str()), 0) {
        Some(i) => Ok(DbValue::Integer((i as u128 + 1) as i64)),
        None => Ok(DbValue::Integer(0)),
    }
}

/// What `REPLACE` gives; an empty pattern replaces nothing.
pub open spec fn replaced_value(f: Facts, args: Seq<SqlValue>) -> Result<SqlValue, StopView> {
    if args[0] is Null {
        Ok(SqlValue::Null)
    } else {
        match value_text(f, args[0]) {
            Err(s) => Err(s),
            Ok(t) => if args[1] is Null {
                Ok(SqlValue::Null)
            } else {
                match value_text(f, args[1]) {
                    Err(s) => Err(s),
                    Ok(pattern) => if args[2] is Null {
                        Ok(SqlValue::Null)
                    } else {
                        match value_text(f, args[2]) {
                            Err(s) => Err(s),
                            Ok(by) => Ok(
                                SqlValue::Text(
                                    if pattern.len() == 0 {
                                        before_nul(t)
                                    } else {
                                        replaced(before_nul(t), pattern, by)
                                    },
                                ),
                            ),
                        }
                    },
                }
            },
        }
    }
}

pub fn replace_values(facts: &RealFacts, args: &[DbValue]) -> (r: Eval<DbValue>)
    requires
        args@.len() == 3,
    ensures
        stop_view(r) == replaced_value(facts@, args.deep_view()),
{
    let ghost a = args.deep_view();
    assert(a[0] == args@[0]@ && a[1] == args@[1]@ && a[2] == args@[2]@);
    if let DbValue::Null = &args[0] {
        return Ok(DbValue::Null);
    }
    let t = coerce_text_like_value(facts, &args[0])?;
    if let DbValue::Null = &args[1] {
        return Ok(DbValue::Null);
    }
    let pattern = coerce_text_like_value(facts, &args[1])?;
    if let DbValue::Null = &args[2] {
        return Ok(DbValue::Null);
    }
    let by = coerce_text_like_value(facts, &args[2])?;
    let head = text_before_nul(t.as_str());
    if char_vec(pattern.as_str()).len() == 0 {
        return Ok(DbValue::Text(head));
    }
    Ok(DbValue::Text(replace(head.as_str(), pattern.as_str(), by.as_str())))
}

/// What the function `LIKE` gives: the pattern comes first.
pub open spec fn like_value(f: Facts, args: Seq<SqlValue>, case_sensitive: bool) -> Result<
    SqlValue,
    StopView,
> {
    if args.len() == 3 {
        if args[2] is Null {
            Ok(SqlValue::Null)
        } else {
            match value_text(f, args[2]) {
                Err(s) => Err(s),
                Ok(escape) => match escape_char(Some(escape)) {
                    Err(s) => Err(s),
                    Ok(_) => like_texts(f, args[0], args[1], Some(escape), case_sensitive),
                },
            }
        }
    } else {
        like_texts(f, args[0], args[1], None, case_sensitive)
    }
}

/// Whether the text of a value is like that of another.
pub open spec fn like_texts(
    f: Facts,
    pattern: SqlValue,
    v: SqlValue,
    escape: Option<Seq<char>>,
    case_sensitive: bool,
) -> Result<SqlValue, StopView> {
    if pattern is Null {
        Ok(SqlValue::Null)
    } else {
        match value_text(f, pattern) {
            Err(s) => Err(s),
            Ok(p) => if v is Null {
                Ok(SqlValue::Null)
            } else {
                match value_text(f, v) {
                    Err(s) => Err(s),
                    Ok(t) => match like(t, p, escape, case_sensitive) {
                        Err(s) => Err(s),
                        Ok(b) => Ok(SqlValue::Boolean(b)),
                    },
                }
            },
        }
    }
}

fn match_like(
    facts: &RealFacts,
    pattern: &DbValue,
    v: &DbValue,
    escape: Option<&str>,
    case_sensitive: bool,
) -> (r: Eval<DbValue>)
    ensures
        stop_view(r) == like_texts(
            facts@,
            pattern@,
            v@,
            match escape {
                Some(t) => Some(t@),
                None => None,
            },
            case_sensitive,
        ),
{
    if let DbValue::Null = pattern {
        return Ok(DbValue::Null);
    }
    let p = coerce_text_like_value(facts, pattern)?;
    if let DbValue::Null = v {
        return Ok(DbValue::Null);
    }
    let t = coerce_text_like_value(facts, v)?;
    let b = matches_like_pattern(t.as_str(), p.as_str(), escape, case_sensitive)?;
    Ok(DbValue::Boolean(b))
}

pub fn like_values(facts: &RealFacts, args: &[DbValue], case_sensitive: bool) -> (r: Eval<DbValue>)
    requires
        2 <= args@.len() <= 3,
    ensures
        stop_view(r) == like_value(facts@, args.deep_view(), case_sensitive),
{
    let ghost a = args.deep_view();
    assert(a[0] == args@[0]@ && a[1] == args@[1]@);
    if args.len() == 3 {
        assert(a[2] == args@[2]@);
        if let DbValue::Null = &args[2] {
            return Ok(DbValue::Null);
        }
        let escape = coerce_text_like_value(facts, &args[2])?;
        let _ = like_escape_char(Some(escape.as_str()))?;
        return match_like(facts, &args[0], &args[1], Some(escape.as_str()), case_sensitive);
    }
    match_like(facts, &args[0], &args[1], None, case_sensitive)
}

/// What the functions `GLOB` and `REGEXP` give: the pattern comes first.
pub open spec fn pattern_value(f: Facts, pattern: SqlValue, v: SqlValue, regular: bool) -> Result<
    SqlValue,
    StopView,
> {
    if pattern is Null {
        Ok(SqlValue::Null)
    } else {
        match value_text(f, pattern) {
            Err(s) => Err(s),
            Ok(p) => if v is Null {
                Ok(SqlValue::Null)
            } else {
                match value_text(f, v) {
                    Err(s) => Err(s),
                    Ok(t) => if regular {
                        match regexp(p, t) {
                            Err(s) => Err(s),
                            Ok(b) => Ok(SqlValue::Boolean(b)),
                        }
                    } else {
                        Ok(SqlValue::Boolean(glob(t, p)))
                    },
                }
            },
        }
    }
}

pub fn match_pattern(facts: &RealFacts, pattern: &DbValue, v: &DbValue, regular: bool) -> (r: Eval<
    DbValue,
>)
    ensures
        stop_view(r) == pattern_value(facts@, pattern@, v@, regular),
{
    if let DbValue::Null = pattern {
        return Ok(DbValue::Null);
    }
    let p = coerce_text_like_value(facts, pattern)?;
    if let DbValue::Null = v {
        return Ok(DbValue::Null);
    }
    let t = coerce_text_like_value(facts, v)?;
    if regular {
        let b = sqlite_regexp_matches(p.as_str(), t.as_str())?;
        return Ok(DbValue::Boolean(b));
    }
    Ok(DbValue::Boolean(matches_glob_pattern(t.as_str(), p.as_str())))
}

/// What `UNICODE` gives: the number of the first character.
pub open spec fn first_code(f: Facts, v: SqlValue) -> Result<SqlValue, StopView> {
    if v is Null {
        Ok(SqlValue::Null)
    } else {
        match value_text(f, v) {
            Err(s) => Err(s),
            Ok(t) => Ok(
                if before_nul(t).len() == 0 {
                    SqlValue::Null
                } else {
                    SqlValue::Integer((before_nul(t)[0] as u32) as i64)
                },
            ),
        }
    }
}

pub fn unicode_value(facts: &RealFacts, v: &DbValue) -> (r: Eval<DbValue>)
    ensures
        stop_view(r) == first_code(facts@, v@),
{
    if let DbValue::Null = v {
        return Ok(DbValue::Null);
    }
    let t = coerce_text_like_value(facts, v)?;
    let head = text_before_nul(t.as_str());
    let chars = char_vec(head.as_str());
    if chars.len() == 0 {
        return Ok(DbValue::Null);
    }
    Ok(DbValue::Integer((chars[0] as u32) as i64))
}

/// The character with a number, or the character that stands for none.
pub open spec fn char_of_code(i: i64) -> char {
    if 0 <= i < 0xD800 || 0xE000 <= i <= 0x10FFFF {
        i as char
    } else {
        '\u{fffd}'
    }
}

fn code_char(i: i64) -> (r: char)
    ensures
        r == char_of_code(i),
{
    if i < 0 || i > 0x10FFFF {
        return '\u{fffd}';
    }
    match char::from_u32(i as u32) {
        Some(c) => c,
        None => '\u{fffd}',
    }
}

/// The characters whose numbers the values from a position on are.
pub open spec fn chars_from(f: Facts, args: Seq<SqlValue>, i: int, out: Seq<char>) -> Result<
    SqlValue,
    StopView,
>
    decreases args.len() - i,
{
    if i < 0 || i >= args.len() {
        Ok(SqlValue::Text(out))
    } else {
        match cast_to_integer(f, args[i]) {
            Err(s) => Err(s),
            Ok(SqlValue::Integer(code)) => chars_from(f, args, i + 1, out.push(char_of_code(code))),
            Ok(_) => chars_from(f, args, i + 1, out),
        }
    }
}

pub fn char_values(facts: &RealFacts, args: &[DbValue]) -> (r: Eval<DbValue>)
    ensures
        stop_view(r) == chars_from(facts@, args.deep_view(), 0, Seq::empty()),
{
    let ghost a = args.deep_view();
    let mut out = String::new();
    let mut i: usize = 0;
    while i < args.len()
        invariant
            a == args.deep_view(),
            i <= args@.len(),
            chars_from(facts@, a, i as int, out@) == chars_from(facts@, a, 0, Seq::empty()),
        decreases args@.len() - i,
    {
        assert(a[i as int] == args@[i as int]@);
        match integer_cast(facts, &args[i])? {
            DbValue::Integer(code) => {
                out.push(code_char(code));
            },
            _ => {},
        }
        i = i + 1;
    }
    Ok(DbValue::Text(out))
}

/// What `QUOTE` gives: the literal of a value, of a text only what stands before a zero
/// character.
pub open spec fn quote_of(f: Facts, v: SqlValue) -> Result<Seq<char>, StopView> {
    match v {
        SqlValue::Text(t) => literal(f, SqlValue::Text(before_nul(t))),
        _ => literal(f, v),
    }
}

pub fn quote_value(facts: &RealFacts, v: &DbValue) -> (r: Eval<String>)
    ensures
        stop_view(r) == quote_of(facts@, v@),
{
    match v {
        DbValue::Text(t) => sqlite_quote_value(facts, &DbValue::Text(text_before_nul(t.as_str()))),
        _ => sqlite_quote_value(facts, v),
    }
}

} // verus!
