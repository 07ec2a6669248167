//! Moments written as text and numbers.

use vstd::prelude::*;

use crate::common::text::{char_vec, i128_text, int_text};
use crate::common::value::{DbValue, SqlValue};
use crate::sqlite3::calendar::{
    civil_date, civil_from_days, day_number, days_from_civil, fits, fits_i64, floor_div, floor_mod,
    month_days, DateParts,
};
use crate::sqlite3::dates::{
    date_text, day_millis, push_date, push_filled, push_time, time_text, weekday, zero_filled,
};
use crate::sqlite3::reals::{
    bits_of_int, int_bits, plain_view, real_answer, stop_view, text_answer, Eval, Facts, RealFacts,
    RealOp, StopView,
};
use crate::sqlite3::strings::{pad_left, padded_left};

verus! {

/// The quotient cut towards zero, by a positive number.
pub open spec fn cut_div(a: int, b: int) -> int {
    if a >= 0 {
        a / b
    } else {
        -((-a) / b)
    }
}

fn divide_cut(a: i128, b: i128) -> (r: i128)
    requires
        0 < b <= 400,
        -0x1_0000_0000_0000_0000_0000_0000 <= a <= 0x1_0000_0000_0000_0000_0000_0000,
    ensures
        r == cut_div(a as int, b as int),
{
    if a >= 0 {
        floor_div(a, b)
    } else {
        -floor_div(-a, b)
    }
}

/// The number of the Julian day that starts on a date.
pub open spec fn julian_day_number(p: DateParts) -> int {
    let a = cut_div(14 - p.month, 12);
    let y = p.year + 4800 - a;
    let m = p.month + 12 * a - 3;
    p.day + cut_div(153 * m + 2, 5) + 365 * y + cut_div(y, 4) - cut_div(y, 100) + cut_div(y, 400)
        - 32045
}

/// The Julian day of a moment.
pub open spec fn julian_day(f: Facts, p: DateParts) -> Result<u64, StopView> {
    real_answer(
        f,
        RealOp::JulianDay,
        int_bits(julian_day_number(p) as i64),
        int_bits(day_millis(p) as i64),
    )
}

/// The Julian day of a moment.
pub fn sqlite_julianday(facts: &RealFacts, p: DateParts) -> (r: Eval<u64>)
    ensures
        plain_view(r) == julian_day(facts@, p),
{
    let a: i128 = divide_cut(14 - p.month as i128, 12);
    let y: i128 = p.year as i128 + 4800 - a;
    let m: i128 = p.month as i128 + 12 * a - 3;
    let number: i128 = p.day as i128 + divide_cut(153 * m + 2, 5) + 365 * y + divide_cut(y, 4)
        - divide_cut(y, 100) + divide_cut(y, 400) - 32045;
    let millis: i128 = p.hour as i128 * 3_600_000 + p.minute as i128 * 60_000 + p.second as i128
        * 1_000 + p.millisecond as i128;
    facts.real_result(RealOp::JulianDay, bits_of_int(number as i64), bits_of_int(millis as i64))
}

/// The seconds since the start of 1970.
pub open spec fn epoch(p: DateParts) -> int {
    day_number(p.year as int, p.month as int, p.day as int) * 86_400 + p.hour * 3_600 + p.minute
        * 60 + p.second
}

fn epoch_of(p: DateParts) -> (r: i128)
    ensures
        r == epoch(p),
{
    days_from_civil(p.year, p.month, p.day) * 86_400 + p.hour as i128 * 3_600 + p.minute as i128
        * 60 + p.second as i128
}

/// What `UNIXEPOCH` gives of a moment: null where the seconds do not fit.
pub open spec fn epoch_value(f: Facts, p: DateParts, subsecond: bool) -> Result<SqlValue, StopView> {
    if !fits(epoch(p)) {
        Ok(SqlValue::Null)
    } else if subsecond {
        match real_answer(
            f,
            RealOp::EpochReal,
            int_bits(epoch(p) as i64),
            int_bits(p.millisecond),
        ) {
            Ok(bits) => Ok(SqlValue::Real(bits)),
            Err(s) => Err(s),
        }
    } else {
        Ok(SqlValue::Integer(epoch(p) as i64))
    }
}

/// What `UNIXEPOCH` gives of a moment.
pub fn sqlite_unixepoch(facts: &RealFacts, p: DateParts, subsecond: bool) -> (r: Eval<DbValue>)
    ensures
        stop_view(r) == epoch_value(facts@, p, subsecond),
{
    let n: i128 = epoch_of(p);
    if !fits_i64(n) {
        return Ok(DbValue::Null);
    }
    if subsecond {
        let bits: u64 = facts.real_result(
            RealOp::EpochReal,
            bits_of_int(n as i64),
            bits_of_int(p.millisecond),
        )?;
        Ok(DbValue::Real(bits))
    } else {
        Ok(DbValue::Integer(n as i64))
    }
}

// ---------------------------------------------------------------------------
// Weeks

/// The day of the year, counted from one.
pub open spec fn day_of_year(p: DateParts) -> int {
    day_number(p.year as int, p.month as int, p.day as int) - day_number(p.year as int, 1, 1) + 1
}

fn sqlite_day_of_year(p: DateParts) -> (r: i128)
    ensures
        r == day_of_year(p),
        -0x4_0000_0000_0000_0000_0000 <= r <= 0x4_0000_0000_0000_0000_0000,
{
    days_from_civil(p.year, p.month, p.day) - days_from_civil(p.year, 1, 1) + 1
}

fn sqlite_sunday_weekday(p: DateParts) -> (r: i128)
    ensures
        r == weekday(p),
        0 <= r <= 6,
{
    floor_mod(days_from_civil(p.year, p.month, p.day) + 4, 7)
}

/// The day of the week, counted from one on Monday.
pub open spec fn monday_weekday(p: DateParts) -> int {
    if weekday(p) == 0 {
        7
    } else {
        weekday(p)
    }
}

fn sqlite_monday_weekday(p: DateParts) -> (r: i128)
    ensures
        r == monday_weekday(p),
        1 <= r <= 7,
{
    let n: i128 = sqlite_sunday_weekday(p);
    if n == 0 {
        7
    } else {
        n
    }
}

/// The week of the year, where weeks start on Mondays.
pub open spec fn monday_week(p: DateParts) -> int {
    cut_div(day_of_year(p) - 1 + 7 - (weekday(p) + 6) % 7, 7)
}

/// The week of the year, where weeks start on Sundays.
pub open spec fn sunday_week(p: DateParts) -> int {
    cut_div(day_of_year(p) - 1 + 7 - weekday(p), 7)
}

fn sqlite_monday_week_number(p: DateParts) -> (r: i128)
    ensures
        r == monday_week(p),
        -0x4_0000_0000_0000_0000_0000 <= r <= 0x4_0000_0000_0000_0000_0000,
{
    let back: i128 = floor_mod(sqlite_sunday_weekday(p) + 6, 7);
    divide_cut(sqlite_day_of_year(p) - 1 + 7 - back, 7)
}

fn sqlite_sunday_week_number(p: DateParts) -> (r: i128)
    ensures
        r == sunday_week(p),
        -0x4_0000_0000_0000_0000_0000 <= r <= 0x4_0000_0000_0000_0000_0000,
{
    divide_cut(sqlite_day_of_year(p) - 1 + 7 - sqlite_sunday_weekday(p), 7)
}

/// The year and the number of a week that starts on a Monday and belongs to the year of its
/// Thursday.
#[verifier::opaque]
pub open spec fn iso_week(p: DateParts) -> (int, int) {
    let days = day_number(p.year as int, p.month as int, p.day as int);
    let year = civil_date(days + (4 - monday_weekday(p))).0;
    let fourth = day_number(year, 1, 4);
    let fourth_weekday = if (fourth + 4) % 7 == 0 {
        7
    } else {
        (fourth + 4) % 7
    };
    let monday = fourth - (fourth_weekday - 1);
    (year, cut_div(days - monday, 7) + 1)
}

fn sqlite_iso_week(p: DateParts) -> (r: Option<(i64, i128)>)
    ensures
        match r {
            Some((y, w)) => iso_week(p) == (y as int, w as int) && -0x8_0000_0000_0000_0000_0000
                <= w <= 0x8_0000_0000_0000_0000_0000 && fits(
                day_number(p.year as int, p.month as int, p.day as int) + (4 - monday_weekday(p)),
            ),
            None => !fits(
                day_number(p.year as int, p.month as int, p.day as int) + (4 - monday_weekday(p)),
            ),
        },
{
    reveal(iso_week);
    let days: i128 = days_from_civil(p.year, p.month, p.day);
    let thursday: i128 = days + (4 - sqlite_monday_weekday(p));
    if !fits_i64(thursday) {
        return None;
    }
    let (year, _, _) = civil_from_days(thursday as i64);
    let fourth: i128 = days_from_civil(year, 1, 4);
    let n: i128 = floor_mod(fourth + 4, 7);
    let fourth_weekday: i128 = if n == 0 {
        7
    } else {
        n
    };
    let monday: i128 = fourth - (fourth_weekday - 1);
    Some((year, divide_cut(days - monday, 7) + 1))
}

/// The hour on a clock of twelve hours.
pub open spec fn clock_hour(hour: int) -> int {
    if hour % 12 == 0 {
        12
    } else {
        hour % 12
    }
}

fn sqlite_12_hour(hour: i64) -> (r: i128)
    ensures
        r == clock_hour(hour as int),
        1 <= r <= 12,
{
    let n: i128 = floor_mod(hour as i128, 12);
    if n == 0 {
        12
    } else {
        n
    }
}

// ---------------------------------------------------------------------------
// Formats

fn push_blanks(out: &mut String, i: i128)
    ensures
        final(out)@ == old(out)@ + padded_left(int_text(i as int), 2, ' '),
{
    out.append(pad_left(i128_text(i).as_str(), 2, ' ').as_str());
}

/// What a directive of a date format writes for a week.
pub open spec fn week_directive(c: char, p: DateParts) -> Option<Seq<char>> {
    if !fits(day_number(p.year as int, p.month as int, p.day as int) + (4 - monday_weekday(p))) {
        None
    } else if c == 'V' {
        Some(zero_filled(iso_week(p).1, 2))
    } else if c == 'G' {
        Some(zero_filled(iso_week(p).0, 4))
    } else {
        Some(zero_filled(iso_week(p).0 % 100, 2))
    }
}

/// What a directive of a date format writes; nothing where there is no such directive.
pub open spec fn date_directive(f: Facts, c: char, p: DateParts, subsecond: bool) -> Result<
    Option<Seq<char>>,
    StopView,
> {
    if c == 'J' {
        match julian_day(f, p) {
            Err(s) => Err(s),
            Ok(bits) => match text_answer(f, RealOp::Show, bits, 0) {
                Err(s) => Err(s),
                Ok(t) => Ok(Some(t)),
            },
        }
    } else if c == 'V' || c == 'G' || c == 'g' {
        Ok(week_directive(c, p))
    } else {
        Ok(plain_directive(c, p, subsecond))
    }
}

/// What a directive writes that needs neither reals nor weeks of another year.
pub open spec fn plain_directive(c: char, p: DateParts, subsecond: bool) -> Option<Seq<char>> {
    if c == '%' {
        Some("%"@)
    } else if c == 'Y' {
        Some(zero_filled(p.year as int, 4))
    } else if c == 'm' {
        Some(zero_filled(p.month as int, 2))
    } else if c == 'd' {
        Some(zero_filled(p.day as int, 2))
    } else if c == 'e' {
        Some(padded_left(int_text(p.day as int), 2, ' '))
    } else if c == 'H' {
        Some(zero_filled(p.hour as int, 2))
    } else if c == 'M' {
        Some(zero_filled(p.minute as int, 2))
    } else if c == 'S' {
        Some(zero_filled(p.second as int, 2))
    } else if c == 'F' {
        Some(date_text(p))
    } else if c == 'T' {
        Some(time_text(p, false))
    } else if c == 's' {
        Some(
            if subsecond {
                int_text(epoch(p)) + "."@ + zero_filled(p.millisecond as int, 3)
            } else {
                int_text(epoch(p))
            },
        )
    } else if c == 'j' {
        Some(zero_filled(day_of_year(p), 3))
    } else if c == 'w' {
        Some(int_text(weekday(p)))
    } else if c == 'u' {
        Some(int_text(monday_weekday(p)))
    } else if c == 'U' {
        Some(zero_filled(sunday_week(p), 2))
    } else if c == 'W' {
        Some(zero_filled(monday_week(p), 2))
    } else {
        clock_directive(c, p)
    }
}

/// What a directive about the time of day writes.
pub open spec fn clock_directive(c: char, p: DateParts) -> Option<Seq<char>> {
    if c == 'R' {
        Some(zero_filled(p.hour as int, 2) + ":"@ + zero_filled(p.minute as int, 2))
    } else if c == 'f' {
        Some(zero_filled(p.second as int, 2) + "."@ + zero_filled(p.millisecond as int, 3))
    } else if c == 'I' {
        Some(zero_filled(clock_hour(p.hour as int), 2))
    } else if c == 'p' {
        Some(
            if p.hour < 12 {
                "AM"@
            } else {
                "PM"@
            },
        )
    } else if c == 'P' {
        Some(
            if p.hour < 12 {
                "am"@
            } else {
                "pm"@
            },
        )
    } else if c == 'k' {
        Some(padded_left(int_text(p.hour as int), 2, ' '))
    } else if c == 'l' {
        Some(padded_left(int_text(clock_hour(p.hour as int)), 2, ' '))
    } else {
        None
    }
}

fn push_clock(out: &mut String, c: char, p: DateParts) -> (r: bool)
    ensures
        match clock_directive(c, p) {
            Some(t) => r && final(out)@ == old(out)@ + t,
            None => !r,
        },
{
    if c == 'R' {
        push_filled(out, p.hour as i128, 2);
        out.append(":");
        push_filled(out, p.minute as i128, 2);
        assert(out@ =~= old(out)@ + (zero_filled(p.hour as int, 2) + ":"@ + zero_filled(
            p.minute as int,
            2,
        )));
    } else if c == 'f' {
        push_filled(out, p.second as i128, 2);
        out.append(".");
        push_filled(out, p.millisecond as i128, 3);
        assert(out@ =~= old(out)@ + (zero_filled(p.second as int, 2) + "."@ + zero_filled(
            p.millisecond as int,
            3,
        )));
    } else if c == 'I' {
        push_filled(out, sqlite_12_hour(p.hour), 2);
    } else if c == 'p' {
        if p.hour < 12 {
            out.append("AM");
        } else {
            out.append("PM");
        }
    } else if c == 'P' {
        if p.hour < 12 {
            out.append("am");
        } else {
            out.append("pm");
        }
    } else if c == 'k' {
        push_blanks(out, p.hour as i128);
    } else if c == 'l' {
        push_blanks(out, sqlite_12_hour(p.hour));
    } else {
        return false;
    }
    true
}

fn push_plain(out: &mut String, c: char, p: DateParts, subsecond: bool) -> (r: bool)
    ensures
        match plain_directive(c, p, subsecond) {
            Some(t) => r && final(out)@ == old(out)@ + t,
            None => !r,
        },
{
    if c == '%' {
        out.append("%");
    } else if c == 'Y' {
        push_filled(out, p.year as i128, 4);
    } else if c == 'm' {
        push_filled(out, p.month as i128, 2);
    } else if c == 'd' {
        push_filled(out, p.day as i128, 2);
    } else if c == 'e' {
        push_blanks(out, p.day as i128);
    } else if c == 'H' {
        push_filled(out, p.hour as i128, 2);
    } else if c == 'M' {
        push_filled(out, p.minute as i128, 2);
    } else if c == 'S' {
        push_filled(out, p.second as i128, 2);
    } else if c == 'F' {
        push_date(out, p);
    } else if c == 'T' {
        push_time(out, p, false);
    } else if c == 's' {
        out.append(i128_text(epoch_of(p)).as_str());
        if subsecond {
            out.append(".");
            push_filled(out, p.millisecond as i128, 3);
            assert(out@ =~= old(out)@ + (int_text(epoch(p)) + "."@ + zero_filled(
                p.millisecond as int,
                3,
            )));
        }
    } else if c == 'j' {
        push_filled(out, sqlite_day_of_year(p), 3);
    } else if c == 'w' {
        out.append(i128_text(sqlite_sunday_weekday(p)).as_str());
    } else if c == 'u' {
        out.append(i128_text(sqlite_monday_weekday(p)).as_str());
    } else if c == 'U' {
        push_filled(out, sqlite_sunday_week_number(p), 2);
    } else if c == 'W' {
        push_filled(out, sqlite_monday_week_number(p), 2);
    } else {
        return push_clock(out, c, p);
    }
    true
}

fn push_week(out: &mut String, c: char, p: DateParts) -> (r: bool)
    requires
        c == 'V' || c == 'G' || c == 'g',
    ensures
        match week_directive(c, p) {
            Some(t) => r && final(out)@ == old(out)@ + t,
            None => !r,
        },
{
    match sqlite_iso_week(p) {
        None => false,
        Some((year, week)) => {
            if c == 'V' {
                push_filled(out, week, 2);
            } else if c == 'G' {
                push_filled(out, year as i128, 4);
            } else {
                push_filled(out, floor_mod(year as i128, 100), 2);
            }
            true
        },
    }
}

/// What a date format writes from a position on, behind what is written; nothing where a
/// directive is not known or cut short.
pub open spec fn strftime_from(
    f: Facts,
    s: Seq<char>,
    p: DateParts,
    subsecond: bool,
    i: int,
    out: Seq<char>,
) -> Result<Option<Seq<char>>, StopView>
    decreases s.len() - i,
{
    if i < 0 || i >= s.len() {
        Ok(Some(out))
    } else if s[i] != '%' {
        strftime_from(f, s, p, subsecond, i + 1, out.push(s[i]))
    } else if i + 1 >= s.len() {
        Ok(None)
    } else {
        match date_directive(f, s[i + 1], p, subsecond) {
            Err(e) => Err(e),
            Ok(None) => Ok(None),
            Ok(Some(t)) => strftime_from(f, s, p, subsecond, i + 2, out + t),
        }
    }
}

/// What a date format writes for a moment.
pub open spec fn strftime(f: Facts, s: Seq<char>, p: DateParts, subsecond: bool) -> Result<
    Option<Seq<char>>,
    StopView,
> {
    strftime_from(f, s, p, subsecond, 0, Seq::empty())
}

/// Writes a moment in a format.
pub fn sqlite_strftime_minimal(facts: &RealFacts, format: &str, p: DateParts, subsecond: bool) -> (r:
    Eval<Option<String>>)
    ensures
        crate::sqlite3::printf::optional_view(r) == strftime(facts@, format@, p, subsecond),
{
    let s = char_vec(format);
    let total: usize = s.len();
    let mut out = String::new();
    let mut i: usize = 0;
    assert(out@ =~= Seq::<char>::empty());
    while i < total
        invariant
            s@ == format@,
            total == s@.len(),
            i <= total,
            strftime_from(facts@, s@, p, subsecond, i as int, out@) == strftime(
                facts@,
                format@,
                p,
                subsecond,
            ),
        decreases total - i,
    {
        if s[i] != '%' {
            out.push(s[i]);
            i = i + 1;
            continue ;
        }
        if i + 1 >= total {
            return Ok(None);
        }
        let c = s[i + 1];
        if c == 'J' {
            let bits: u64 = sqlite_julianday(facts, p)?;
            let t = facts.text_result(RealOp::Show, bits, 0)?;
            out.append(t.as_str());
        } else if c == 'V' || c == 'G' || c == 'g' {
            if !push_week(&mut out, c, p) {
                return Ok(None);
            }
        } else if !push_plain(&mut out, c, p, subsecond) {
            return Ok(None);
        }
        i = i + 2;
    }
    Ok(Some(out))
}

// ---------------------------------------------------------------------------
// Differences

/// Whether one moment stands behind another, field by field.
pub open spec fn is_later(a: DateParts, b: DateParts) -> bool {
    if a.year != b.year {
        a.year > b.year
    } else if a.month != b.month {
        a.month > b.month
    } else if a.day != b.day {
        a.day > b.day
    } else if a.hour != b.hour {
        a.hour > b.hour
    } else if a.minute != b.minute {
        a.minute > b.minute
    } else if a.second != b.second {
        a.second > b.second
    } else {
        a.millisecond > b.millisecond
    }
}

/// Whether one moment stands behind another.
pub fn compare_date_time_parts(a: DateParts, b: DateParts) -> (r: bool)
    ensures
        r == is_later(a, b),
{
    if a.year != b.year {
        a.year > b.year
    } else if a.month != b.month {
        a.month > b.month
    } else if a.day != b.day {
        a.day > b.day
    } else if a.hour != b.hour {
        a.hour > b.hour
    } else if a.minute != b.minute {
        a.minute > b.minute
    } else if a.second != b.second {
        a.second > b.second
    } else {
        a.millisecond > b.millisecond
    }
}

/// A field of a difference where it is negative: with its range added.
pub open spec fn lifted(n: int, range: int) -> int {
    if n < 0 {
        n + range
    } else {
        n
    }
}

/// What a field of a difference takes from the next one.
pub open spec fn taken(n: int) -> int {
    if n < 0 {
        1
    } else {
        0
    }
}

/// The number of days of the month before that of a moment.
pub open spec fn previous_month_days(p: DateParts) -> int {
    if p.month == 1 {
        month_days(p.year - 1, 12)
    } else {
        month_days(p.year as int, p.month - 1)
    }
}

/// The difference of two moments in the calendar, with a sign.
pub open spec fn difference(start: DateParts, end: DateParts, sign: char) -> Seq<char> {
    let millis = end.millisecond - start.millisecond;
    let seconds = end.second - start.second - taken(millis);
    let minutes = end.minute - start.minute - taken(seconds);
    let hours = end.hour - start.hour - taken(minutes);
    let days = end.day - start.day - taken(hours);
    let months = end.month - start.month - taken(days);
    let years = end.year - start.year - taken(months);
    seq![sign] + zero_filled(years, 4) + "-"@ + zero_filled(lifted(months, 12), 2) + "-"@
        + zero_filled(lifted(days, previous_month_days(end)), 2) + " "@ + zero_filled(
        lifted(hours, 24),
        2,
    ) + ":"@ + zero_filled(lifted(minutes, 60), 2) + ":"@ + zero_filled(lifted(seconds, 60), 2)
        + "."@ + zero_filled(lifted(millis, 1000), 3)
}

fn lift(n: i128, range: i128) -> (r: i128)
    requires
        -0x10_0000_0000_0000_0000_0000 <= n <= 0x10_0000_0000_0000_0000_0000,
        -0x10_0000_0000_0000_0000_0000 <= range <= 0x10_0000_0000_0000_0000_0000,
    ensures
        r == lifted(n as int, range as int),
        r > i128::MIN,
{
    if n < 0 {
        n + range
    } else {
        n
    }
}

fn take(n: i128) -> (r: i128)
    ensures
        r == taken(n as int),
        0 <= r <= 1,
{
    if n < 0 {
        1
    } else {
        0
    }
}

fn days_of_previous_month(p: DateParts) -> (r: i128)
    requires
        1 <= p.month <= 12,
        p.year > i64::MIN,
    ensures
        r == previous_month_days(p),
        -0x10_0000_0000_0000_0000_0000 <= r <= 0x10_0000_0000_0000_0000_0000,
{
    if p.month == 1 {
        days_from_civil(p.year, 1, 1) - days_from_civil(p.year - 1, 12, 1)
    } else {
        days_from_civil(p.year, p.month, 1) - days_from_civil(p.year, p.month - 1, 1)
    }
}

/// The difference of two moments, or nothing where the calendar does not reach that far.
pub open spec fn difference_of(start: DateParts, end: DateParts) -> Option<Seq<char>> {
    let (first, last, sign) = if is_later(start, end) {
        (end, start, '-')
    } else {
        (start, end, '+')
    };
    if last.year == i64::MIN || !(1 <= last.month <= 12) {
        None
    } else {
        Some(difference(first, last, sign))
    }
}

/// The difference of two moments.
pub fn sqlite_timediff_between(start: DateParts, end: DateParts) -> (r: Option<String>)
    ensures
        match r {
            Some(t) => difference_of(start, end) == Some(t@),
            None => difference_of(start, end) is None,
        },
{
    let later = compare_date_time_parts(start, end);
    let first: DateParts = if later {
        end
    } else {
        start
    };
    let last: DateParts = if later {
        start
    } else {
        end
    };
    let sign: char = if later {
        '-'
    } else {
        '+'
    };
    if last.year == i64::MIN || last.month < 1 || last.month > 12 {
        return None;
    }
    let month_len: i128 = days_of_previous_month(last);
    let millis: i128 = last.millisecond as i128 - first.millisecond as i128;
    let seconds: i128 = last.second as i128 - first.second as i128 - take(millis);
    let minutes: i128 = last.minute as i128 - first.minute as i128 - take(seconds);
    let hours: i128 = last.hour as i128 - first.hour as i128 - take(minutes);
    let days: i128 = last.day as i128 - first.day as i128 - take(hours);
    let months: i128 = last.month as i128 - first.month as i128 - take(days);
    let years: i128 = last.year as i128 - first.year as i128 - take(months);
    let mut out = String::new();
    out.push(sign);
    push_filled(&mut out, years, 4);
    out.append("-");
    push_filled(&mut out, lift(months, 12), 2);
    out.append("-");
    push_filled(&mut out, lift(days, month_len), 2);
    out.append(" ");
    push_filled(&mut out, lift(hours, 24), 2);
    out.append(":");
    push_filled(&mut out, lift(minutes, 60), 2);
    out.append(":");
    push_filled(&mut out, lift(seconds, 60), 2);
    out.append(".");
    push_filled(&mut out, lift(millis, 1000), 3);
    assert(out@ =~= difference(first, last, sign));
    assert(difference_of(start, end) == Some(difference(first, last, sign)));
    Some(out)
}

} // verus!
