//! What holds of dates: how long months and years are, which day follows which, and what moving a
//! date leaves of it.

use vstd::prelude::*;

use crate::common::value::SqlValue;
use crate::sqlite3::calendar::{
    civil_date, day_number, era_of, law_day_number_of_civil_date, month_days, DateParts,
    DateShiftRounding,
};
use crate::sqlite3::date_format::{epoch, epoch_value};
use crate::sqlite3::dates::{
    day_millis, modified, modified_from, modifiers_from, moment, moment_of_args, moment_of_seconds,
    moved_by_millis, moved_by_months, moved_to_weekday, reading_from, subsecond_from, weekday,
};
use crate::sqlite3::expression_laws::answers;
use crate::sqlite3::functions::ScalarFunc;
use crate::sqlite3::number_functions::epoch_of_args;
use crate::sqlite3::reals::{Facts, StopView};
use crate::sqlite3::strings::{lowered, same_letters, trimmed};

verus! {

/// Whether a year has a day more.
pub open spec fn leap(year: int) -> bool {
    year % 4 == 0 && (year % 100 != 0 || year % 400 == 0)
}

/// The days of a month.
pub open spec fn month_length(year: int, month: int) -> int {
    if month == 2 {
        if leap(year) {
            29
        } else {
            28
        }
    } else if month == 4 || month == 6 || month == 9 || month == 11 {
        30
    } else {
        31
    }
}

/// Whether a date is one of the calendar, in a year from the first on.
pub open spec fn is_date(year: int, month: int, day: int) -> bool {
    1 <= year && 1 <= month <= 12 && 1 <= day <= month_length(year, month)
}

/// The first day of the year nineteen hundred and seventy has the number zero, and each day of a
/// month the number behind that of the day before.
pub proof fn law_days_are_numbered_one_behind_the_other(year: int, month: int, day: int)
    ensures
        day_number(1970, 1, 1) == 0,
        day_number(year, month, day + 1) == day_number(year, month, day) + 1,
{
}

/// The months have their lengths, and so have the years.
pub proof fn law_months_have_their_lengths(year: int, month: int)
    requires
        1 <= year,
        1 <= month <= 12,
    ensures
        month_days(year, month) == month_length(year, month),
        day_number(year + 1, 1, 1) - day_number(year, 1, 1) == if leap(year) {
            366int
        } else {
            365int
        },
{
    lemma_eras(year);
    lemma_eras(year - 1);
}

proof fn lemma_eras(y: int)
    requires
        0 <= y,
    ensures
        era_of(y, 400) == y / 400,
        0 <= y - 400 * (y / 400) < 400,
        y % 400 == y - 400 * (y / 400),
        y % 4 == (y % 400) % 4,
        y % 100 == (y % 400) % 100,
{
}

proof fn lemma_year_found(yoe: int, doy: int)
    requires
        0 <= yoe <= 399,
        0 <= doy <= 365,
        doy == 365 ==> leap(yoe + 1),
    ensures
        ({
            let doe = yoe * 365 + yoe / 4 - yoe / 100 + doy;
            &&& 0 <= doe < 146_097
            &&& (doe - doe / 1_460 + doe / 36_524 - doe / 146_096) / 365 == yoe
        }),
{
    let c = yoe / 100;
    let q = (yoe % 100) / 4;
    let r = yoe % 4;
    assert(yoe == 100 * c + 4 * q + r);
    assert(yoe / 4 == 25 * c + q);
    let doe = yoe * 365 + yoe / 4 - yoe / 100 + doy;
    assert(doe == 36_524 * c + 1_461 * q + 365 * r + doy);
    let x = doe - doe / 1_460 + doe / 36_524 - doe / 146_096;
    assert(365 * yoe <= x < 365 * yoe + 365);
}

proof fn lemma_month_found(mp: int, day: int)
    requires
        0 <= mp <= 11,
        1 <= day <= 31,
        mp == 11 ==> day <= 29,
        mp == 1 || mp == 3 || mp == 6 || mp == 8 ==> day <= 30,
    ensures
        ({
            let doy = (153 * mp + 2) / 5 + day - 1;
            &&& 0 <= doy <= 365
            &&& doy == 365 ==> mp == 11 && day == 29
            &&& (5 * doy + 2) / 153 == mp
        }),
{
}

proof fn lemma_date_found(era: int, yoe: int, mp: int, day: int)
    requires
        0 <= era,
        0 <= yoe <= 399,
        0 <= mp <= 11,
        1 <= day <= 31,
        mp == 11 ==> day <= 29,
        mp == 1 || mp == 3 || mp == 6 || mp == 8 ==> day <= 30,
        mp == 11 && day == 29 ==> leap(yoe + 1),
    ensures
        ({
            let doy = (153 * mp + 2) / 5 + day - 1;
            let doe = yoe * 365 + yoe / 4 - yoe / 100 + doy;
            let month = mp + if mp < 10 {
                3int
            } else {
                -9int
            };
            civil_date(era * 146_097 + doe - 719_468) == (
                yoe + era * 400 + if month <= 2 {
                    1int
                } else {
                    0int
                },
                month,
                day,
            )
        }),
{
    lemma_month_found(mp, day);
    let doy = (153 * mp + 2) / 5 + day - 1;
    lemma_year_found(yoe, doy);
    let doe = yoe * 365 + yoe / 4 - yoe / 100 + doy;
    let z = era * 146_097 + doe;
    assert(z / 146_097 == era);
    assert(era_of(z, 146_097) == era);
    assert(z - era * 146_097 == doe);
    assert(doe - (365 * yoe + yoe / 4 - yoe / 100) == doy);
}

/// The date of the number of a day is the date of the day.
pub proof fn law_civil_date_of_day_number(year: int, month: int, day: int)
    requires
        is_date(year, month, day),
    ensures
        civil_date(day_number(year, month, day)) == (year, month, day),
        day_number(year, month, day) >= -719_468,
{
    let y = year - if month <= 2 {
        1int
    } else {
        0int
    };
    let era = era_of(y, 400);
    let yoe = y - era * 400;
    let mp = month + if month > 2 {
        -3int
    } else {
        9int
    };
    lemma_eras(y);
    lemma_eras(year);
    if month == 2 && day == 29 {
        lemma_leap_alike(year, yoe + 1, era);
    }
    lemma_date_found(era, yoe, mp, day);
}

proof fn lemma_leap_alike(year: int, other: int, era: int)
    requires
        year == other + 400 * era,
    ensures
        leap(year) == leap(other),
{
}

// ---------------------------------------------------------------------------
// Moments

/// The thousandths of a second of a moment since the first day of the year nineteen hundred and
/// seventy.
pub open spec fn clock(p: DateParts) -> int {
    day_number(p.year as int, p.month as int, p.day as int) * 86_400_000 + day_millis(p)
}

/// Whether the time of day of a moment is one.
pub open spec fn is_time(p: DateParts) -> bool {
    &&& 0 <= p.hour <= 23
    &&& 0 <= p.minute <= 59
    &&& 0 <= p.second <= 59
    &&& 0 <= p.millisecond <= 999
}

/// Whether two moments have the same time of day.
pub open spec fn same_time(p: DateParts, q: DateParts) -> bool {
    &&& p.hour == q.hour
    &&& p.minute == q.minute
    &&& p.second == q.second
    &&& p.millisecond == q.millisecond
}

pub proof fn lemma_years_fit(days: int)
    requires
        -719_468 <= days <= i64::MAX,
    ensures
        0 <= civil_date(days).0 <= i64::MAX,
        1 <= civil_date(days).1 <= 12,
        1 <= civil_date(days).2 <= 31,
        day_number(civil_date(days).0, civil_date(days).1, civil_date(days).2) == days,
{
    law_day_number_of_civil_date(days);
    let z = days + 719_468;
    let era = z / 146_097;
    let doe = z - era * 146_097;
    assert(0 <= doe < 146_097);
    let yoe = (doe - doe / 1_460 + doe / 36_524 - doe / 146_096) / 365;
    assert(0 <= yoe <= 399);
    assert(0 <= era <= 63_131_000_000_000_000);
}

proof fn lemma_moment(days: int, millis: int)
    requires
        -719_468 <= days <= i64::MAX,
        0 <= millis < 86_400_000,
    ensures
        clock(moment(days, millis)) == days * 86_400_000 + millis,
        is_time(moment(days, millis)),
{
    lemma_years_fit(days);
}

/// A moment that is moved by some time is that much later, or earlier where the time is negative.
pub proof fn law_moments_move_by_as_much_as_they_should(p: DateParts, offset: int, q: DateParts)
    requires
        moved_by_millis(p, offset) == Some(q),
        clock(p) + offset >= -719_468 * 86_400_000,
    ensures
        clock(q) == clock(p) + offset,
        is_time(q),
{
    let total = day_millis(p) + offset;
    let days = day_number(p.year as int, p.month as int, p.day as int) + total / 86_400_000;
    lemma_moment(days, total % 86_400_000);
}

/// A moment that is moved to a day of the week is on that day, less than a week later, and at the
/// same time of day. Days of the week come round every seven days.
#[verifier::spinoff_prover]
#[verifier::rlimit(80)]
pub proof fn law_moments_move_to_the_next_weekday(p: DateParts, target: int, q: DateParts)
    requires
        moved_to_weekday(p, target) == Some(q),
        0 <= target <= 6,
        day_number(p.year as int, p.month as int, p.day as int) >= -719_468,
    ensures
        weekday(q) == target,
        same_time(p, q),
        0 <= day_number(q.year as int, q.month as int, q.day as int) - day_number(
            p.year as int,
            p.month as int,
            p.day as int,
        ) < 7,
{
    let first = day_number(p.year as int, p.month as int, p.day as int);
    let days = first + (target - weekday(p)) % 7;
    lemma_years_fit(days);
    lemma_next_weekday(first, target);
}

proof fn lemma_next_weekday(first: int, target: int)
    requires
        0 <= target <= 6,
    ensures
        (first + (target - (first + 4) % 7) % 7 + 4) % 7 == target,
        0 <= (target - (first + 4) % 7) % 7 < 7,
{
}

/// The day behind another is the next day of the week, and the first day of the year nineteen
/// hundred and seventy is a Thursday.
pub proof fn law_weekdays_follow(p: DateParts, q: DateParts)
    requires
        day_number(q.year as int, q.month as int, q.day as int) == day_number(
            p.year as int,
            p.month as int,
            p.day as int,
        ) + 1,
    ensures
        weekday(q) == (weekday(p) + 1) % 7,
        0 <= weekday(p) < 7,
        p.year == 1970 && p.month == 1 && p.day == 1 ==> weekday(p) == 4,
{
}

/// A date that is moved by months keeps its day and its time where the month has the day, and is
/// that many months later. Where the month is too short, it is either the last day of the month or
/// as many days behind it as are left over.
pub proof fn law_dates_move_by_months(
    p: DateParts,
    offset: int,
    rounding: DateShiftRounding,
    q: DateParts,
)
    requires
        is_date(p.year as int, p.month as int, p.day as int),
        moved_by_months(p, offset, rounding) == Some(q),
        p.year * 12 + (p.month - 1) + offset >= 12,
    ensures
        ({
            let months = p.year * 12 + (p.month - 1) + offset;
            let (year, month) = (months / 12, months % 12 + 1);
            &&& same_time(p, q)
            &&& p.day <= month_length(year, month) ==> q.year == year && q.month == month && q.day
                == p.day
            &&& p.day > month_length(year, month) && rounding is Floor ==> q.year == year && q.month
                == month && q.day == month_length(year, month)
            &&& p.day > month_length(year, month) && !(rounding is Floor) ==> day_number(
                q.year as int,
                q.month as int,
                q.day as int,
            ) == day_number(year, month, month_length(year, month)) + p.day - month_length(
                year,
                month,
            )
        }),
{
    let months = p.year * 12 + (p.month - 1) + offset;
    let year = months / 12;
    let month = months % 12 + 1;
    law_months_have_their_lengths(year, month);
    let days = day_number(year, month, 1) + (p.day - 1);
    law_civil_date_of_day_number(year, month, 1);
    if p.day <= month_length(year, month) {
        law_civil_date_of_day_number(year, month, p.day as int);
        assert(days == day_number(year, month, p.day as int));
    } else if !(rounding is Floor) {
        lemma_years_fit(days);
    }
}

/// The start of a day, of a month and of a year is its first moment.
pub proof fn law_starts_are_first_moments(
    f: Facts,
    p: DateParts,
    m: Seq<char>,
    rounding: DateShiftRounding,
)
    ensures
        same_letters(trimmed(m), "start of day"@) ==> (modified(f, p, m, rounding) matches Ok(
            Some(q),
        ) && day_millis(q) == 0 && q.year == p.year && q.month == p.month && q.day == p.day),
        same_letters(trimmed(m), "start of month"@) ==> (modified(f, p, m, rounding) matches Ok(
            Some(q),
        ) && day_millis(q) == 0 && q.year == p.year && q.month == p.month && q.day == 1),
        same_letters(trimmed(m), "start of year"@) ==> (modified(f, p, m, rounding) matches Ok(
            Some(q),
        ) && day_millis(q) == 0 && q.year == p.year && q.month == 1 && q.day == 1),
{
    reveal_strlit("start of day");
    reveal_strlit("start of month");
    reveal_strlit("start of year");
    let t = trimmed(m);
    let low = lowered(t);
    if same_letters(t, "start of month"@) {
        assert(low[9] == 'm') by {
            assert(lowered("start of month"@)[9] == 'm');
        }
        assert(lowered("start of day"@).len() == 12);
        assert(low.len() == 14);
    }
    if same_letters(t, "start of year"@) {
        assert(low.len() == 13);
        assert(lowered("start of day"@).len() == 12);
        assert(lowered("start of month"@).len() == 14);
    }
}

pub proof fn lemma_epoch_args(f: Facts, n: i64)
    requires
        n >= 0,
    ensures
        ({
            let args = seq![SqlValue::Integer(n), SqlValue::Text("unixepoch"@)];
            &&& moment_of_args(f, args) == Ok::<_, StopView>(Some(moment_of_seconds(n as int)))
            &&& subsecond_from(f, args, 1) == Ok::<_, StopView>(false)
        }),
{
    reveal_strlit("unixepoch");
    reveal_strlit("auto");
    reveal_strlit("subsec");
    reveal_strlit("subsecond");
    let t = "unixepoch"@;
    let args = seq![SqlValue::Integer(n), SqlValue::Text(t)];
    let none = Seq::<Seq<char>>::empty();
    let m = none.push(t);
    assert(args.len() == 2 && args[0] == SqlValue::Integer(n) && args[1] == SqlValue::Text(t));
    assert(modifiers_from(f, args, 2, m) == Ok::<_, StopView>(Some(m)));
    assert(modifiers_from(f, args, 1, none) == Ok::<_, StopView>(Some(m)));
    assert(m.len() == 1 && m[0] == t);
    assert(lowered(t).len() == 9);
    assert(lowered("auto"@).len() == 4);
    assert(lowered("subsec"@).len() == 6);
    assert(lowered("subsecond"@)[0] == 's');
    assert(lowered(t)[0] == 'u');
    assert(!same_letters(t, "subsecond"@));
    assert(!reading_from(m, 1));
    let p = Some(moment_of_seconds(n as int));
    assert(modified_from(f, m, 1, p) == Ok::<_, StopView>(p));
    assert(modified_from(f, m, 0, p) == Ok::<_, StopView>(p));
    assert(subsecond_from(f, args, 2) == Ok::<_, StopView>(false));
}

/// The seconds of the moment that is some seconds behind the first day of the year nineteen
/// hundred and seventy are those seconds.
#[verifier::spinoff_prover]
#[verifier::rlimit(80)]
pub proof fn law_seconds_come_back(f: Facts, n: i64, cased: bool)
    requires
        n >= 0,
    ensures
        answers(
            f,
            ScalarFunc::UnixEpoch,
            seq![SqlValue::Integer(n), SqlValue::Text("unixepoch"@)],
            cased,
            SqlValue::Integer(n),
        ),
{
    lemma_epoch_args(f, n);
    let p = moment_of_seconds(n as int);
    lemma_epoch(n as int);
    let args = seq![SqlValue::Integer(n), SqlValue::Text("unixepoch"@)];
    assert(args.len() == 2);
    assert(epoch_of_args(f, args) == epoch_value(f, p, false));
}

#[verifier::spinoff_prover]
#[verifier::rlimit(80)]
proof fn lemma_epoch(n: int)
    requires
        0 <= n <= i64::MAX,
    ensures
        epoch(moment_of_seconds(n)) == n,
{
    let days = n / 86_400;
    let rest = n % 86_400;
    lemma_years_fit(days);
    lemma_day_seconds(rest);
}

proof fn lemma_day_seconds(rest: int)
    requires
        0 <= rest < 86_400,
    ensures
        ({
            let millis = 1_000 * rest;
            &&& (millis / 3_600_000) * 3_600 + ((millis % 3_600_000) / 60_000) * 60 + (millis
                % 60_000) / 1_000 == rest
            &&& 0 <= millis / 3_600_000 <= 23
            &&& 0 <= (millis % 3_600_000) / 60_000 <= 59
            &&& 0 <= (millis % 60_000) / 1_000 <= 59
        }),
{
}

} // verus!
