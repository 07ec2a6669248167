//! What dates are shown as: their numbers, the days and weeks of a year, and how far two moments
//! are apart.

use vstd::prelude::*;

use crate::common::text::nat_text;
use crate::common::value::SqlValue;
use crate::sqlite3::calendar::{civil_date, day_number, DateParts};
use crate::sqlite3::calendar_laws::{lemma_epoch_args, lemma_years_fit};
use crate::sqlite3::date_format::{
    clock_hour, date_directive, day_of_year, difference_of, is_later, monday_week, monday_weekday,
    strftime, strftime_from, sunday_week,
};
use crate::sqlite3::dates::{
    moment_of_args, moment_of_seconds, subsecond_from, weekday, zero_filled,
};
use crate::sqlite3::expression_laws::answers;
use crate::sqlite3::functions::ScalarFunc;
use crate::sqlite3::number_functions::{moment_text, MomentPart};
use crate::sqlite3::reals::{Facts, StopView};
use crate::sqlite3::strings::{all_digits, digits_value, is_digit, repeated};
use crate::sqlite3::text_laws::lemma_nat_text;

verus! {

proof fn lemma_zeros_before(t: Seq<char>, n: nat)
    requires
        all_digits(t),
    ensures
        all_digits(repeated('0', n) + t),
        digits_value(repeated('0', n) + t) == digits_value(t),
    decreases t.len(), n,
{
    let all = repeated('0', n) + t;
    assert forall|i: int| 0 <= i < all.len() implies is_digit(#[trigger] all[i]) by {
        if i >= n {
            assert(all[i] == t[i - n]);
        }
    }
    if t.len() > 0 {
        let rest = t.drop_last();
        assert(all_digits(rest)) by {
            assert forall|i: int| 0 <= i < rest.len() implies is_digit(#[trigger] rest[i]) by {
                assert(rest[i] == t[i]);
            }
        }
        lemma_zeros_before(rest, n);
        assert(all.drop_last() =~= repeated('0', n) + rest);
        assert(all.last() == t.last());
    } else if n > 0 {
        let fewer = (n - 1) as nat;
        lemma_zeros_before(t, fewer);
        assert(all.drop_last() =~= repeated('0', fewer) + t);
        assert(all.last() == '0');
    }
}

/// A number that is filled with zeros has at least as many digits as it should have, and the value
/// that it had.
pub proof fn law_zeros_do_not_change_numbers(n: int, width: int)
    requires
        0 <= n,
    ensures
        zero_filled(n, width).len() >= width,
        all_digits(zero_filled(n, width)),
        digits_value(zero_filled(n, width)) == n,
        width >= nat_text(n as nat).len() ==> zero_filled(n, width).len() == width,
{
    let t = nat_text(n as nat);
    lemma_nat_text(n as nat);
    if t.len() < width {
        lemma_zeros_before(t, (width - t.len()) as nat);
    }
}

/// The moment that is some seconds behind the first day of the year nineteen hundred and seventy
/// is shown by its year, month and day, by its hour, minute and second, or by both.
pub proof fn law_moments_are_shown_by_their_numbers(
    f: Facts,
    n: i64,
    year: int,
    month: int,
    day: int,
    hour: int,
    minute: int,
    second: int,
    cased: bool,
)
    requires
        n >= 0,
        civil_date(n as int / 86_400) == (year, month, day),
        0 <= hour,
        0 <= minute < 60,
        0 <= second < 60,
        n as int % 86_400 == hour * 3_600 + minute * 60 + second,
    ensures
        ({
            let args = seq![SqlValue::Integer(n), SqlValue::Text("unixepoch"@)];
            let date = zero_filled(year, 4) + "-"@ + zero_filled(month, 2) + "-"@ + zero_filled(
                day,
                2,
            );
            let time = zero_filled(hour, 2) + ":"@ + zero_filled(minute, 2) + ":"@ + zero_filled(
                second,
                2,
            );
            &&& answers(f, ScalarFunc::Date, args, cased, SqlValue::Text(date))
            &&& answers(f, ScalarFunc::Time, args, cased, SqlValue::Text(time))
            &&& answers(f, ScalarFunc::DateTime, args, cased, SqlValue::Text(date + " "@ + time))
        }),
{
    let args = seq![SqlValue::Integer(n), SqlValue::Text("unixepoch"@)];
    let p = moment_of_seconds(n as int);
    lemma_epoch_args(f, n);
    lemma_time_found(n as int % 86_400, hour, minute, second);
    lemma_years_fit(n as int / 86_400);
    lemma_parts_found(n as int, year, month, day, hour, minute, second);
    lemma_moment_text(f, args, p, cased);
}

proof fn lemma_time_found(rest: int, hour: int, minute: int, second: int)
    requires
        0 <= rest < 86_400,
        0 <= hour,
        0 <= minute < 60,
        0 <= second < 60,
        rest == hour * 3_600 + minute * 60 + second,
    ensures
        ({
            let millis = 1_000 * rest;
            &&& hour <= 23
            &&& millis / 3_600_000 == hour
            &&& (millis % 3_600_000) / 60_000 == minute
            &&& (millis % 60_000) / 1_000 == second
            &&& millis % 1_000 == 0
        }),
{
}

proof fn lemma_parts_found(
    n: int,
    year: int,
    month: int,
    day: int,
    hour: int,
    minute: int,
    second: int,
)
    requires
        civil_date(n / 86_400) == (year, month, day),
        0 <= year <= i64::MAX,
        1 <= month <= 12,
        1 <= day <= 31,
        0 <= hour <= 23,
        0 <= minute <= 59,
        0 <= second <= 59,
        1_000 * (n % 86_400) / 3_600_000 == hour,
        ((1_000 * (n % 86_400)) % 3_600_000) / 60_000 == minute,
        ((1_000 * (n % 86_400)) % 60_000) / 1_000 == second,
    ensures
        ({
            let p = moment_of_seconds(n);
            &&& p.year == year && p.month == month && p.day == day
            &&& p.hour == hour && p.minute == minute && p.second == second
        }),
{
}

proof fn lemma_moment_text(f: Facts, args: Seq<SqlValue>, p: DateParts, cased: bool)
    requires
        moment_of_args(f, args) == Ok::<_, StopView>(Some(p)),
        subsecond_from(f, args, 1) == Ok::<_, StopView>(false),
    ensures
        ({
            let date = zero_filled(p.year as int, 4) + "-"@ + zero_filled(p.month as int, 2) + "-"@
                + zero_filled(p.day as int, 2);
            let time = zero_filled(p.hour as int, 2) + ":"@ + zero_filled(p.minute as int, 2) + ":"@
                + zero_filled(p.second as int, 2);
            &&& answers(f, ScalarFunc::Date, args, cased, SqlValue::Text(date))
            &&& answers(f, ScalarFunc::Time, args, cased, SqlValue::Text(time))
            &&& answers(f, ScalarFunc::DateTime, args, cased, SqlValue::Text(date + " "@ + time))
        }),
{
    assert(moment_text(f, MomentPart::Date, args) is Ok);
    assert(moment_text(f, MomentPart::Time, args) is Ok);
    assert(moment_text(f, MomentPart::DateTime, args) is Ok);
}

// ---------------------------------------------------------------------------
// Days and weeks of a year

/// Whether a date is the day behind another in the same year.
pub open spec fn next_in_year(p: DateParts, q: DateParts) -> bool {
    &&& q.year == p.year
    &&& day_number(q.year as int, q.month as int, q.day as int) == day_number(
        p.year as int,
        p.month as int,
        p.day as int,
    ) + 1
    &&& day_number(p.year as int, p.month as int, p.day as int) >= day_number(p.year as int, 1, 1)
}

/// The first of January is the first day of the year, and each day behind it the next one. The
/// weeks of a year begin with its Sundays, or with its Mondays.
#[verifier::spinoff_prover]
#[verifier::rlimit(80)]
pub proof fn law_days_and_weeks_of_a_year_are_counted(p: DateParts, q: DateParts)
    ensures
        p.month == 1 && p.day == 1 ==> {
            &&& day_of_year(p) == 1
            &&& sunday_week(p) == if weekday(p) == 0 {
                1int
            } else {
                0
            }
            &&& monday_week(p) == if weekday(p) == 1 {
                1int
            } else {
                0
            }
        },
        next_in_year(p, q) ==> {
            &&& day_of_year(q) == day_of_year(p) + 1
            &&& sunday_week(q) == sunday_week(p) + if weekday(q) == 0 {
                1int
            } else {
                0
            }
            &&& monday_week(q) == monday_week(p) + if weekday(q) == 1 {
                1int
            } else {
                0
            }
        },
{
    let a = day_number(p.year as int, p.month as int, p.day as int);
    let b = day_number(q.year as int, q.month as int, q.day as int);
    let start = day_number(p.year as int, 1, 1);
    if p.month == 1 && p.day == 1 {
        assert(a == start);
        lemma_first_week((a + 4) % 7);
        assert(sunday_week(p) == (7 - weekday(p)) / 7);
        assert(monday_week(p) == (7 - (weekday(p) + 6) % 7) / 7);
    }
    if next_in_year(p, q) {
        let (d, w) = (a - start, (a + 4) % 7);
        lemma_weeks(d, w);
        let v = (w + 1) % 7;
        assert((b + 4) % 7 == v);
        assert(weekday(p) == w && weekday(q) == v);
        assert(day_of_year(p) == d + 1 && day_of_year(q) == d + 2);
        assert(sunday_week(p) == (d + 7 - w) / 7);
        assert(sunday_week(q) == (d + 1 + 7 - v) / 7);
        assert(monday_week(p) == (d + 7 - (w + 6) % 7) / 7);
        assert(monday_week(q) == (d + 1 + 7 - (v + 6) % 7) / 7);
    }
}

proof fn lemma_first_week(w: int)
    requires
        0 <= w < 7,
    ensures
        (7 - w) / 7 == if w == 0 {
            1int
        } else {
            0int
        },
        (7 - (w + 6) % 7) / 7 == if w == 1 {
            1int
        } else {
            0int
        },
{
}

proof fn lemma_weeks(d: int, w: int)
    requires
        0 <= d,
        0 <= w < 7,
    ensures
        ({
            let v = (w + 1) % 7;
            &&& (d + 1 + 7 - v) / 7 == (d + 7 - w) / 7 + if v == 0 {
                1int
            } else {
                0int
            }
            &&& (d + 1 + 7 - (v + 6) % 7) / 7 == (d + 7 - (w + 6) % 7) / 7 + if v == 1 {
                1int
            } else {
                0int
            }
        }),
{
}

/// The days of a week that begins on Monday are counted from one, and Sunday is the seventh.
pub proof fn law_weeks_begin_on_mondays(p: DateParts)
    ensures
        1 <= monday_weekday(p) <= 7,
        monday_weekday(p) % 7 == weekday(p),
{
}

/// The hours of a clock with twelve hours come round twice a day, and begin with the twelfth.
pub proof fn law_clocks_have_twelve_hours(hour: int)
    requires
        0 <= hour <= 23,
    ensures
        1 <= clock_hour(hour) <= 12,
        clock_hour(0) == 12,
        clock_hour(hour) == 12 ==> clock_hour(hour + 1) == 1,
        clock_hour(hour) < 12 ==> clock_hour(hour + 1) == clock_hour(hour) + 1,
{
}

// ---------------------------------------------------------------------------
// Formats

proof fn lemma_strftime_from(
    f: Facts,
    s: Seq<char>,
    p: DateParts,
    subsecond: bool,
    i: int,
    out: Seq<char>,
)
    requires
        0 <= i <= s.len(),
    ensures
        strftime_from(f, s, p, subsecond, i, out) == (match strftime(f, s.skip(i), p, subsecond) {
            Err(e) => Err::<Option<Seq<char>>, StopView>(e),
            Ok(None) => Ok(None),
            Ok(Some(t)) => Ok(Some(out + t)),
        }),
    decreases s.len() - i,
{
    let rest = s.skip(i);
    let none = Seq::<char>::empty();
    if i < s.len() {
        assert(rest[0] == s[i]);
        if s[i] != '%' {
            lemma_strftime_from(f, s, p, subsecond, i + 1, out.push(s[i]));
            if i > 0 {
                lemma_strftime_from(f, rest, p, subsecond, 1, none.push(s[i]));
            } else {
                assert(rest =~= s);
                lemma_strftime_from(f, s, p, subsecond, 1, none.push(s[i]));
            }
            assert(rest.skip(1) =~= s.skip(i + 1));
            match strftime(f, s.skip(i + 1), p, subsecond) {
                Ok(Some(t)) => {
                    assert(out + (none.push(s[i]) + t) =~= out.push(s[i]) + t);
                },
                _ => {},
            }
        } else if i + 1 < s.len() {
            assert(rest[1] == s[i + 1]);
            match date_directive(f, s[i + 1], p, subsecond) {
                Ok(Some(x)) => {
                    lemma_strftime_from(f, s, p, subsecond, i + 2, out + x);
                    if i > 0 {
                        lemma_strftime_from(f, rest, p, subsecond, 2, none + x);
                    } else {
                        assert(rest =~= s);
                        lemma_strftime_from(f, s, p, subsecond, 2, none + x);
                    }
                    assert(rest.skip(2) =~= s.skip(i + 2));
                    match strftime(f, s.skip(i + 2), p, subsecond) {
                        Ok(Some(t)) => {
                            assert(out + ((none + x) + t) =~= (out + x) + t);
                        },
                        _ => {},
                    }
                },
                _ => {},
            }
        }
    } else {
        assert(rest.len() == 0);
        assert(out + none =~= out);
    }
}

/// A format is followed from left to right: a character but the per cent sign stands for itself,
/// and what such a sign and a character are shown as stands before the rest.
pub proof fn law_formats_are_followed_from_left_to_right(
    f: Facts,
    c: char,
    s: Seq<char>,
    p: DateParts,
    subsecond: bool,
    t: Seq<char>,
    x: Seq<char>,
)
    requires
        strftime(f, s, p, subsecond) == Ok::<_, StopView>(Some(t)),
    ensures
        strftime(f, Seq::empty(), p, subsecond) == Ok::<_, StopView>(Some(Seq::<char>::empty())),
        c != '%' ==> strftime(f, seq![c] + s, p, subsecond) == Ok::<_, StopView>(Some(seq![c] + t)),
        strftime(f, seq!['%', c], p, subsecond) == Ok::<_, StopView>(Some(x)) ==> strftime(
            f,
            seq!['%', c] + s,
            p,
            subsecond,
        ) == Ok::<_, StopView>(Some(x + t)),
        strftime(f, seq!['%'], p, subsecond) == Ok::<Option<Seq<char>>, StopView>(None),
{
    let none = Seq::<char>::empty();
    let one = seq![c] + s;
    assert(one[0] == c);
    assert(one.skip(1) =~= s);
    if c != '%' {
        lemma_strftime_from(f, one, p, subsecond, 1, none.push(c));
        assert(none.push(c) + t =~= seq![c] + t);
    }
    let two = seq!['%', c];
    let more = two + s;
    assert(more[0] == '%' && more[1] == c);
    assert(more.skip(2) =~= s);
    match date_directive(f, c, p, subsecond) {
        Ok(Some(y)) => {
            lemma_strftime_from(f, more, p, subsecond, 2, none + y);
            lemma_strftime_from(f, two, p, subsecond, 2, none + y);
            assert(two.skip(2) =~= none);
            assert((none + y) + none =~= y);
            assert((none + y) + t =~= y + t);
        },
        _ => {},
    }
}

// ---------------------------------------------------------------------------
// How far two moments are apart

/// Two moments are as far apart one way as the other, with the opposite sign.
pub proof fn law_differences_have_a_direction(a: DateParts, b: DateParts, r: Seq<char>)
    requires
        is_later(a, b),
        difference_of(b, a) == Some(r),
    ensures
        r.len() > 0,
        r[0] == '+',
        difference_of(a, b) == Some(seq!['-'] + r.skip(1)),
        !is_later(b, a),
{
    let s = difference_of(a, b)->Some_0;
    assert(s =~= seq!['-'] + r.skip(1));
}

} // verus!
