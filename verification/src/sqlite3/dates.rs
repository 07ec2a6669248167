//! The date and time functions.

use vstd::prelude::*;

use crate::common::text::{char_vec, i128_text, nat_text, text_of};
use crate::common::value::{DbValue, SqlValue};
use crate::sqlite3::calendar::{
    civil_date, civil_from_days, day_number, days_from_civil, fits, fits_i64, floor_div, floor_mod,
    month_days, DateParts, DateShiftRounding,
};
use crate::sqlite3::reals::{
    abs_bits, about_numbers, below, int_answer, int_of_real, is_finite, is_nan, is_signed,
    optional_int_answer, parsed_real, plain_view, real_below, real_of_int, Eval, Facts, Question,
    QuestionView, RealFacts, RealOp, StopView, INFINITY, SIGN,
};
use crate::sqlite3::strings::{
    all_digits, char_from, digit, digits_value, find_char, i64_of, is_digit, lossy, lossy_text,
    occurs_at, pad_left, padded_left, same_but_case, same_letters, stands_at, strip_start,
    stripped_start, text_i64, trim, trim_end, trimmed, trimmed_end,
};
use crate::sqlite3::values::{coerce_text_like_value, value_text};

verus! {

// ---------------------------------------------------------------------------
// Numbers as text

/// An integer filled up to a width with zeros behind its sign.
pub open spec fn zero_filled(i: int, width: int) -> Seq<char> {
    if i < 0 {
        seq!['-'] + padded_left(nat_text((-i) as nat), width - 1, '0')
    } else {
        padded_left(nat_text(i as nat), width, '0')
    }
}

/// Writes an integer filled up to a width with zeros behind its sign.
pub fn push_filled(out: &mut String, i: i128, width: usize)
    requires
        width >= 1,
        i > i128::MIN,
    ensures
        final(out)@ == old(out)@ + zero_filled(i as int, width as int),
{
    if i < 0 {
        let digits = i128_text(-i);
        out.push('-');
        out.append(pad_left(digits.as_str(), width - 1, '0').as_str());
        assert(out@ =~= old(out)@ + zero_filled(i as int, width as int));
    } else {
        let digits = i128_text(i);
        out.append(pad_left(digits.as_str(), width, '0').as_str());
    }
}

/// A date.
pub open spec fn date_text(p: DateParts) -> Seq<char> {
    zero_filled(p.year as int, 4) + "-"@ + zero_filled(p.month as int, 2) + "-"@ + zero_filled(
        p.day as int,
        2,
    )
}

/// Writes a date.
pub fn push_date(out: &mut String, p: DateParts)
    ensures
        final(out)@ == old(out)@ + date_text(p),
{
    push_filled(out, p.year as i128, 4);
    out.append("-");
    push_filled(out, p.month as i128, 2);
    out.append("-");
    push_filled(out, p.day as i128, 2);
    assert(out@ =~= old(out)@ + date_text(p));
}

/// A time, with milliseconds where they are asked for.
pub open spec fn time_text(p: DateParts, subsecond: bool) -> Seq<char> {
    let whole = zero_filled(p.hour as int, 2) + ":"@ + zero_filled(p.minute as int, 2) + ":"@
        + zero_filled(p.second as int, 2);
    if subsecond {
        whole + "."@ + zero_filled(p.millisecond as int, 3)
    } else {
        whole
    }
}

/// Writes a time.
pub fn push_time(out: &mut String, p: DateParts, subsecond: bool)
    ensures
        final(out)@ == old(out)@ + time_text(p, subsecond),
{
    push_filled(out, p.hour as i128, 2);
    out.append(":");
    push_filled(out, p.minute as i128, 2);
    out.append(":");
    push_filled(out, p.second as i128, 2);
    if subsecond {
        out.append(".");
        push_filled(out, p.millisecond as i128, 3);
    }
    assert(out@ =~= old(out)@ + time_text(p, subsecond));
}

// ---------------------------------------------------------------------------
// Shifting

/// The moment on a day with a number, at a number of milliseconds past midnight.
pub open spec fn moment(days: int, millis: int) -> DateParts {
    let (y, m, d) = civil_date(days);
    DateParts {
        year: y as i64,
        month: m as i64,
        day: d as i64,
        hour: (millis / 3_600_000) as i64,
        minute: ((millis % 3_600_000) / 60_000) as i64,
        second: ((millis % 60_000) / 1_000) as i64,
        millisecond: (millis % 1_000) as i64,
    }
}

fn moment_at(days: i64, millis: i128) -> (r: DateParts)
    requires
        0 <= millis < 86_400_000,
    ensures
        r == moment(days as int, millis as int),
{
    let (year, month, day) = civil_from_days(days);
    DateParts {
        year,
        month,
        day,
        hour: (millis / 3_600_000) as i64,
        minute: ((millis % 3_600_000) / 60_000) as i64,
        second: ((millis % 60_000) / 1_000) as i64,
        millisecond: (millis % 1_000) as i64,
    }
}

/// The milliseconds since midnight.
pub open spec fn day_millis(p: DateParts) -> int {
    p.hour * 3_600_000 + p.minute * 60_000 + p.second * 1_000 + p.millisecond
}

/// A moment moved by a number of milliseconds.
pub open spec fn moved_by_millis(p: DateParts, offset: int) -> Option<DateParts> {
    let total = day_millis(p) + offset;
    let days = day_number(p.year as int, p.month as int, p.day as int) + total / 86_400_000;
    if fits(total) && fits(days) {
        Some(moment(days, total % 86_400_000))
    } else {
        None
    }
}

/// A moment moved by a number of milliseconds.
pub fn shift_parsed_date_time_parts_by_millis(p: DateParts, offset: i64) -> (r: Option<DateParts>)
    ensures
        r == moved_by_millis(p, offset as int),
{
    let total: i128 = p.hour as i128 * 3_600_000 + p.minute as i128 * 60_000 + p.second as i128
        * 1_000 + p.millisecond as i128 + offset as i128;
    if !fits_i64(total) {
        return None;
    }
    let days: i128 = days_from_civil(p.year, p.month, p.day) + floor_div(total, 86_400_000);
    if !fits_i64(days) {
        return None;
    }
    Some(moment_at(days as i64, floor_mod(total, 86_400_000)))
}

/// A moment with another date.
pub open spec fn on_date(p: DateParts, date: (int, int, int)) -> DateParts {
    DateParts { year: date.0 as i64, month: date.1 as i64, day: date.2 as i64, ..p }
}

/// A moment moved by a number of months.
pub open spec fn moved_by_months(p: DateParts, offset: int, rounding: DateShiftRounding) -> Option<
    DateParts,
> {
    let months = p.year * 12 + (p.month - 1) + offset;
    let year = months / 12;
    let month = months % 12 + 1;
    let days = day_number(year, month, 1) + (p.day - 1);
    if !fits(p.month - 1) || !fits(p.year * 12) || !fits(p.year * 12 + (p.month - 1)) || !fits(
        months,
    ) {
        None
    } else if rounding is Floor && p.day > month_days(year, month) {
        Some(on_date(p, (year, month, month_days(year, month))))
    } else if !fits(days) {
        None
    } else {
        Some(on_date(p, civil_date(days)))
    }
}

/// A moment moved by a number of months.
pub fn shift_parsed_date_time_parts_by_months(
    p: DateParts,
    offset: i64,
    rounding: DateShiftRounding,
) -> (r: Option<DateParts>)
    ensures
        r == moved_by_months(p, offset as int, rounding),
{
    let zero_based: i128 = p.month as i128 - 1;
    let years: i128 = p.year as i128 * 12;
    let months: i128 = years + zero_based + offset as i128;
    if !fits_i64(zero_based) || !fits_i64(years) || !fits_i64(years + zero_based) || !fits_i64(
        months,
    ) {
        return None;
    }
    let year: i64 = floor_div(months, 12) as i64;
    let month: i64 = floor_mod(months, 12) as i64 + 1;
    let floor = match rounding {
        DateShiftRounding::Floor => true,
        DateShiftRounding::Ceiling => false,
    };
    let first: i128 = days_from_civil(year, month, 1);
    if floor {
        let next: i128 = if month == 12 {
            days_from_civil(year + 1, 1, 1)
        } else {
            days_from_civil(year, month + 1, 1)
        };
        let len: i128 = next - first;
        if p.day as i128 > len {
            return Some(DateParts { year, month, day: len as i64, ..p });
        }
    }
    let days: i128 = first + (p.day as i128 - 1);
    if !fits_i64(days) {
        return None;
    }
    let (year, month, day) = civil_from_days(days as i64);
    Some(DateParts { year, month, day, ..p })
}

/// The day of the week, counted from Sunday.
pub open spec fn weekday(p: DateParts) -> int {
    (day_number(p.year as int, p.month as int, p.day as int) + 4) % 7
}

/// A moment moved to the next day with a weekday.
pub open spec fn moved_to_weekday(p: DateParts, target: int) -> Option<DateParts> {
    let days = day_number(p.year as int, p.month as int, p.day as int) + (target - weekday(p)) % 7;
    if fits(days) {
        Some(on_date(p, civil_date(days)))
    } else {
        None
    }
}

fn shift_parsed_date_time_parts_to_weekday(p: DateParts, target: i64) -> (r: Option<DateParts>)
    requires
        0 <= target <= 6,
    ensures
        r == moved_to_weekday(p, target as int),
{
    let current: i128 = days_from_civil(p.year, p.month, p.day);
    let today: i128 = floor_mod(current + 4, 7);
    let days: i128 = current + floor_mod(target as i128 - today, 7);
    if !fits_i64(days) {
        return None;
    }
    let (year, month, day) = civil_from_days(days as i64);
    Some(DateParts { year, month, day, ..p })
}

// ---------------------------------------------------------------------------
// Texts

/// The parts of a text between the occurrences of a character, from a position on.
pub open spec fn split_from(s: Seq<char>, c: char, i: int, done: Seq<Seq<char>>) -> Seq<Seq<char>>
    decreases s.len() - i,
{
    if i < 0 || i > s.len() {
        done
    } else {
        let e = char_from(s, c, i);
        if i <= e < s.len() {
            split_from(s, c, e + 1, done.push(s.subrange(i, e)))
        } else {
            done.push(s.subrange(i, s.len() as int))
        }
    }
}

/// The parts of a text between the occurrences of a character.
pub open spec fn split(s: Seq<char>, c: char) -> Seq<Seq<char>> {
    split_from(s, c, 0, Seq::empty())
}

/// What the texts of a vector are.
pub open spec fn texts(v: Seq<String>) -> Seq<Seq<char>> {
    v.map_values(|s: String| s@)
}

fn split_text(s: &str, c: char) -> (r: Vec<String>)
    ensures
        texts(r@) == split(s@, c),
{
    let v = char_vec(s);
    let mut r: Vec<String> = Vec::new();
    let mut i: usize = 0;
    assert(texts(r@) =~= Seq::<Seq<char>>::empty());
    loop
        invariant
            v@ == s@,
            i <= v@.len(),
            split_from(v@, c, i as int, texts(r@)) == split(s@, c),
        decreases v@.len() - i,
    {
        let e: usize = find_char(&v, c, i);
        let ghost before = texts(r@);
        let part = text_of(&v, i, e);
        r.push(part);
        assert(texts(r@) =~= before.push(v@.subrange(i as int, e as int)));
        if e >= v.len() {
            return r;
        }
        i = e + 1;
    }
}

/// The date that a text gives: year, month and day between hyphens.
pub open spec fn date_of(s: Seq<char>) -> Option<(int, int, int)> {
    let p = split(s, '-');
    if p.len() == 3 && i64_of(p[0]) is Some && i64_of(p[1]) is Some && i64_of(p[2]) is Some && 1
        <= i64_of(p[1])->Some_0 <= 12 && 1 <= i64_of(p[2])->Some_0 <= 31 {
        Some(
            (
                i64_of(p[0])->Some_0 as int,
                i64_of(p[1])->Some_0 as int,
                i64_of(p[2])->Some_0 as int,
            ),
        )
    } else {
        None
    }
}

fn parse_iso_date(s: &str) -> (r: Option<(i64, i64, i64)>)
    ensures
        match r {
            Some((y, m, d)) => date_of(s@) == Some((y as int, m as int, d as int)),
            None => date_of(s@) is None,
        },
{
    let p = split_text(s, '-');
    let ghost q = split(s@, '-');
    assert(p@.len() == q.len());
    if p.len() != 3 {
        return None;
    }
    assert(p@[0]@ == q[0] && p@[1]@ == q[1] && p@[2]@ == q[2]);
    let year: i64 = match text_i64(p[0].as_str()) {
        Some(n) => n,
        None => {
            return None;
        },
    };
    let month: i64 = match text_i64(p[1].as_str()) {
        Some(n) => n,
        None => {
            return None;
        },
    };
    let day: i64 = match text_i64(p[2].as_str()) {
        Some(n) => n,
        None => {
            return None;
        },
    };
    if month < 1 || month > 12 || day < 1 || day > 31 {
        return None;
    }
    Some((year, month, day))
}

/// The milliseconds that the digits behind a dot stand for.
pub open spec fn millis_of(t: Seq<char>) -> Option<int> {
    if t.len() == 0 || !all_digits(t) {
        None
    } else if t.len() == 1 {
        Some(100int * digits_value(t))
    } else if t.len() == 2 {
        Some(10int * digits_value(t))
    } else {
        Some(digits_value(t.take(3)) as int)
    }
}

fn digit_value(c: char) -> (r: i64)
    requires
        is_digit(c),
    ensures
        r == c as int - '0' as int,
        0 <= r <= 9,
{
    (c as u8 - 48) as i64
}

fn read_millis(c: &Vec<char>, from: usize) -> (r: Option<i64>)
    requires
        from <= c@.len(),
    ensures
        match r {
            Some(n) => millis_of(c@.skip(from as int)) == Some(n as int),
            None => millis_of(c@.skip(from as int)) is None,
        },
{
    let ghost t = c@.skip(from as int);
    let total: usize = c.len();
    let mut i: usize = from;
    while i < total
        invariant
            total == c@.len(),
            t == c@.skip(from as int),
            from <= i <= total,
            forall|j: int| 0 <= j < i - from ==> is_digit(#[trigger] t[j]),
        decreases total - i,
    {
        if !digit(c[i]) {
            assert(!is_digit(t[i - from]));
            return None;
        }
        i = i + 1;
    }
    let n: usize = total - from;
    if n == 0 {
        return None;
    }
    proof {
        reveal_with_fuel(digits_value, 4);
        assert(all_digits(t));
        assert(t[0] == c@[from as int]);
        if n == 1 {
            assert(t.drop_last() =~= Seq::<char>::empty());
        } else if n == 2 {
            assert(t.drop_last().drop_last() =~= Seq::<char>::empty());
            assert(t[1] == c@[from + 1]);
        } else {
            let u = t.take(3);
            assert(u.drop_last().drop_last().drop_last() =~= Seq::<char>::empty());
            assert(u[0] == c@[from as int] && u[1] == c@[from + 1] && u[2] == c@[from + 2]);
            assert(is_digit(t[1]) && is_digit(t[2]));
        }
    }
    let a: i64 = digit_value(c[from]);
    if n == 1 {
        return Some(100 * a);
    }
    let b: i64 = digit_value(c[from + 1]);
    if n == 2 {
        return Some(100 * a + 10 * b);
    }
    let d: i64 = digit_value(c[from + 2]);
    Some(100 * a + 10 * b + d)
}

/// A text without one character at its end.
pub open spec fn without_end(s: Seq<char>, c: char) -> Seq<char> {
    if s.len() > 0 && s.last() == c {
        s.drop_last()
    } else {
        s
    }
}

/// The time that a text gives: hour, minute, second and millisecond.
pub open spec fn time_of(s: Seq<char>) -> Option<(int, int, int, int)> {
    let p = split(without_end(s, 'Z'), ':');
    if p.len() != 3 {
        None
    } else {
        let dot = char_from(p[2], '.', 0);
        let second = i64_of(p[2].take(dot));
        let millis = if dot < p[2].len() {
            millis_of(p[2].skip(dot + 1))
        } else {
            Some(0)
        };
        if i64_of(p[0]) is Some && i64_of(p[1]) is Some && second is Some && millis is Some && 0
            <= i64_of(p[0])->Some_0 <= 24 && 0 <= i64_of(p[1])->Some_0 <= 59 && 0
            <= second->Some_0 <= 59 {
            Some(
                (
                    i64_of(p[0])->Some_0 as int,
                    i64_of(p[1])->Some_0 as int,
                    second->Some_0 as int,
                    millis->Some_0,
                ),
            )
        } else {
            None
        }
    }
}

fn parse_iso_time(s: &str) -> (r: Option<(i64, i64, i64, i64)>)
    ensures
        match r {
            Some((h, m, x, n)) => time_of(s@) == Some((h as int, m as int, x as int, n as int)),
            None => time_of(s@) is None,
        },
{
    let c = char_vec(s);
    let end: usize = if c.len() > 0 && c[c.len() - 1] == 'Z' {
        c.len() - 1
    } else {
        c.len()
    };
    let value = text_of(&c, 0, end);
    assert(value@ =~= without_end(s@, 'Z'));
    let p = split_text(value.as_str(), ':');
    let ghost q = split(value@, ':');
    assert(p@.len() == q.len());
    if p.len() != 3 {
        return None;
    }
    assert(p@[0]@ == q[0] && p@[1]@ == q[1] && p@[2]@ == q[2]);
    let hour: i64 = match text_i64(p[0].as_str()) {
        Some(n) => n,
        None => {
            return None;
        },
    };
    let minute: i64 = match text_i64(p[1].as_str()) {
        Some(n) => n,
        None => {
            return None;
        },
    };
    let t = char_vec(p[2].as_str());
    let dot: usize = find_char(&t, '.', 0);
    let whole = text_of(&t, 0, dot);
    assert(whole@ =~= q[2].take(dot as int));
    let second: i64 = match text_i64(whole.as_str()) {
        Some(n) => n,
        None => {
            return None;
        },
    };
    let millisecond: i64 = if dot < t.len() {
        match read_millis(&t, dot + 1) {
            Some(n) => n,
            None => {
                return None;
            },
        }
    } else {
        0
    };
    if hour < 0 || hour > 24 || minute < 0 || minute > 59 || second < 0 || second > 59 {
        return None;
    }
    Some((hour, minute, second, millisecond))
}

/// The position of the last sign before a position, or minus one.
pub open spec fn last_sign(s: Seq<char>, i: int) -> int
    decreases i,
{
    if i <= 0 || i > s.len() {
        -1
    } else if s[i - 1] == '+' || s[i - 1] == '-' {
        i - 1
    } else {
        last_sign(s, i - 1)
    }
}

/// A text split into a time and the minutes that its zone lies ahead.
pub open spec fn zoned(s: Seq<char>) -> Option<(Seq<char>, int)> {
    let v = trimmed(s);
    if v.len() > 0 && v.last() == 'Z' {
        Some((trimmed_end(v.drop_last()), 0))
    } else {
        let k = last_sign(v, v.len() as int);
        if k < 0 {
            Some((v, 0))
        } else {
            let offset = trimmed(v.skip(k));
            let digits = offset.skip(1);
            let colon = char_from(digits, ':', 0);
            let hours = i64_of(digits.take(colon));
            let minutes = i64_of(digits.skip(colon + 1));
            if offset.len() > 0 && colon < digits.len() && hours is Some && minutes is Some && 0 <= hours->Some_0 <= 14
                && 0 <= minutes->Some_0 <= 59 {
                let n = hours->Some_0 * 60 + minutes->Some_0;
                Some(
                    (
                        trimmed_end(v.take(k)),
                        if v[k] == '+' {
                            n
                        } else {
                            -n
                        },
                    ),
                )
            } else {
                None
            }
        }
    }
}

fn find_last_sign(v: &Vec<char>) -> (r: Option<usize>)
    ensures
        match r {
            Some(k) => last_sign(v@, v@.len() as int) == k && k < v@.len(),
            None => last_sign(v@, v@.len() as int) == -1,
        },
{
    let mut i: usize = v.len();
    while i > 0
        invariant
            i <= v@.len(),
            last_sign(v@, i as int) == last_sign(v@, v@.len() as int),
        decreases i,
    {
        if v[i - 1] == '+' || v[i - 1] == '-' {
            return Some(i - 1);
        }
        i = i - 1;
    }
    None
}

fn split_timezone_offset(s: &str) -> (r: Option<(String, i64)>)
    ensures
        match r {
            Some((t, n)) => zoned(s@) == Some((t@, n as int)) && -899 <= n <= 899,
            None => zoned(s@) is None,
        },
{
    let trimmed_text = trim(s);
    let v = char_vec(trimmed_text.as_str());
    if v.len() > 0 && v[v.len() - 1] == 'Z' {
        let t = text_of(&v, 0, v.len() - 1);
        assert(t@ =~= v@.drop_last());
        return Some((trim_end(t.as_str()), 0));
    }
    let k: usize = match find_last_sign(&v) {
        Some(k) => k,
        None => {
            return Some((trimmed_text, 0));
        },
    };
    let time = text_of(&v, 0, k);
    assert(time@ =~= v@.take(k as int));
    let tail = text_of(&v, k, v.len());
    assert(tail@ =~= v@.skip(k as int));
    let offset = char_vec(trim(tail.as_str()).as_str());
    if offset.len() == 0 {
        return None;
    }
    let digits = char_vec(text_of(&offset, 1, offset.len()).as_str());
    assert(digits@ =~= offset@.skip(1));
    let colon: usize = find_char(&digits, ':', 0);
    if colon >= digits.len() {
        return None;
    }
    let hours = text_of(&digits, 0, colon);
    assert(hours@ =~= digits@.take(colon as int));
    let minutes = text_of(&digits, colon + 1, digits.len());
    assert(minutes@ =~= digits@.skip(colon + 1));
    let hours: i64 = match text_i64(hours.as_str()) {
        Some(n) => n,
        None => {
            return None;
        },
    };
    let minutes: i64 = match text_i64(minutes.as_str()) {
        Some(n) => n,
        None => {
            return None;
        },
    };
    if hours < 0 || hours > 14 || minutes < 0 || minutes > 59 {
        return None;
    }
    let n: i64 = hours * 60 + minutes;
    Some(
        (
            trim_end(time.as_str()),
            if v[k] == '+' {
                n
            } else {
                -n
            },
        ),
    )
}

/// The time that a text gives with the minutes that its zone lies ahead.
pub open spec fn zoned_time_of(s: Seq<char>) -> Option<((int, int, int, int), int)> {
    match zoned(trimmed(s)) {
        None => None,
        Some((t, n)) => match time_of(t) {
            Some(parts) => Some((parts, n)),
            None => None,
        },
    }
}

fn parse_iso_time_with_timezone(s: &str) -> (r: Option<(i64, i64, i64, i64, i64)>)
    ensures
        match r {
            Some((h, m, x, n, z)) => zoned_time_of(s@) == Some(
                ((h as int, m as int, x as int, n as int), z as int),
            ) && -899 <= z <= 899,
            None => zoned_time_of(s@) is None,
        },
{
    match split_timezone_offset(trim(s).as_str()) {
        None => None,
        Some((time, z)) => match parse_iso_time(time.as_str()) {
            None => None,
            Some((h, m, x, n)) => Some((h, m, x, n, z)),
        },
    }
}

/// A moment in a zone, as the moment in the zone of zero.
pub open spec fn in_zone(p: DateParts, minutes: int) -> Option<DateParts> {
    if minutes == 0 {
        Some(p)
    } else {
        moved_by_millis(p, -60_000 * minutes)
    }
}

fn apply_timezone_offset(p: DateParts, minutes: i64) -> (r: Option<DateParts>)
    requires
        -899 <= minutes <= 899,
    ensures
        r == in_zone(p, minutes as int),
{
    if minutes == 0 {
        Some(p)
    } else {
        shift_parsed_date_time_parts_by_millis(p, -60_000 * minutes)
    }
}

/// The position of the first blank or `T` from a position on, or the length.
pub open spec fn gap_from(s: Seq<char>, i: int) -> int
    decreases s.len() - i,
{
    if i < 0 || i >= s.len() {
        s.len() as int
    } else if s[i] == ' ' || s[i] == 'T' {
        i
    } else {
        gap_from(s, i + 1)
    }
}

/// A text split into a date and a time.
pub open spec fn date_and_time(s: Seq<char>) -> Option<(Seq<char>, Seq<char>)> {
    let v = trimmed(s);
    let k = gap_from(v, 0);
    let date = trimmed(v.take(k));
    let time = trimmed(stripped_start(v.skip(k), " T"@));
    if k < v.len() && date.len() > 0 && time.len() > 0 {
        Some((date, time))
    } else {
        None
    }
}

fn split_sqlite_datetime_text(s: &str) -> (r: Option<(String, String)>)
    ensures
        match r {
            Some((d, t)) => date_and_time(s@) == Some((d@, t@)),
            None => date_and_time(s@) is None,
        },
{
    let v = char_vec(trim(s).as_str());
    let mut k: usize = 0;
    while k < v.len() && !(v[k] == ' ' || v[k] == 'T')
        invariant
            k <= v@.len(),
            gap_from(v@, k as int) == gap_from(v@, 0),
        decreases v@.len() - k,
    {
        k = k + 1;
    }
    if k >= v.len() {
        return None;
    }
    let head = text_of(&v, 0, k);
    assert(head@ =~= v@.take(k as int));
    let tail = text_of(&v, k, v.len());
    assert(tail@ =~= v@.skip(k as int));
    let date = trim(head.as_str());
    let time = trim(strip_start(tail.as_str(), " T").as_str());
    let d = char_vec(date.as_str());
    let t = char_vec(time.as_str());
    if d.len() == 0 || t.len() == 0 {
        return None;
    }
    Some((date, time))
}

/// A moment from a date and a time.
pub open spec fn parts_of(date: (int, int, int), time: (int, int, int, int)) -> DateParts {
    DateParts {
        year: date.0 as i64,
        month: date.1 as i64,
        day: date.2 as i64,
        hour: time.0 as i64,
        minute: time.1 as i64,
        second: time.2 as i64,
        millisecond: time.3 as i64,
    }
}

/// The moment that a text gives.
pub open spec fn moment_of_text(f: Facts, s: Seq<char>) -> Result<Option<DateParts>, StopView> {
    if same_letters(s, "now"@) {
        match optional_int_answer(f, about_numbers(RealOp::Now, 0, 0)) {
            Err(e) => Err(e),
            Ok(None) => Ok(None),
            Ok(Some(n)) => Ok(Some(moment_of_seconds(n as int))),
        }
    } else if date_of(s) is Some {
        Ok(Some(parts_of(date_of(s)->Some_0, (0, 0, 0, 0))))
    } else if zoned_time_of(s) is Some {
        let (time, zone) = zoned_time_of(s)->Some_0;
        Ok(in_zone(parts_of((2000, 1, 1), time), zone))
    } else {
        match date_and_time(s) {
            None => Ok(None),
            Some((d, t)) => match (date_of(d), zoned_time_of(t)) {
                (Some(date), Some((time, zone))) => Ok(in_zone(parts_of(date, time), zone)),
                _ => Ok(None),
            },
        }
    }
}

/// The moment at a number of seconds since the start of 1970.
pub open spec fn moment_of_seconds(n: int) -> DateParts {
    moment(n / 86_400, 1_000 * (n % 86_400))
}

fn parse_sqlite_unixepoch_value(n: i64) -> (r: DateParts)
    ensures
        r == moment_of_seconds(n as int),
{
    let days: i64 = floor_div(n as i128, 86_400) as i64;
    moment_at(days, 1_000 * floor_mod(n as i128, 86_400))
}

fn parse_sqlite_date_time_text(facts: &RealFacts, s: &str) -> (r: Eval<Option<DateParts>>)
    ensures
        plain_view(r) == moment_of_text(facts@, s@),
{
    if same_but_case(s, "now") {
        let question = Question { op: RealOp::Now, a: 0, b: 0, text: String::new() };
        assert(question@ =~= about_numbers(RealOp::Now, 0, 0));
        return match facts.optional_int_result(question)? {
            None => Ok(None),
            Some(n) => Ok(Some(parse_sqlite_unixepoch_value(n))),
        };
    }
    if let Some((year, month, day)) = parse_iso_date(s) {
        return Ok(
            Some(DateParts { year, month, day, hour: 0, minute: 0, second: 0, millisecond: 0 }),
        );
    }
    if let Some((hour, minute, second, millisecond, zone)) = parse_iso_time_with_timezone(s) {
        let parts = DateParts { year: 2000, month: 1, day: 1, hour, minute, second, millisecond };
        return Ok(apply_timezone_offset(parts, zone));
    }
    match split_sqlite_datetime_text(s) {
        None => Ok(None),
        Some((d, t)) => {
            let (year, month, day) = match parse_iso_date(d.as_str()) {
                Some(date) => date,
                None => {
                    return Ok(None);
                },
            };
            match parse_iso_time_with_timezone(t.as_str()) {
                None => Ok(None),
                Some((hour, minute, second, millisecond, zone)) => {
                    let parts = DateParts { year, month, day, hour, minute, second, millisecond };
                    Ok(apply_timezone_offset(parts, zone))
                },
            }
        },
    }
}

// ---------------------------------------------------------------------------
// Numbers

/// The bits of the smallest integer as a real.
pub const REAL_MIN_INT: u64 = 0xC3E0_0000_0000_0000;

/// The bits of the largest integer as a real.
pub const REAL_MAX_INT: u64 = 0x43E0_0000_0000_0000;

/// The bits of the largest real that is taken as a Julian day.
pub const LAST_JULIAN_DAY: u64 = 0x4154_7F8B_1FFF_FBCE;

/// The moment at a real number of seconds since the start of 1970.
pub open spec fn moment_of_real(f: Facts, bits: u64) -> Result<Option<DateParts>, StopView> {
    if !is_finite(bits) || real_below(bits, REAL_MIN_INT) || real_below(REAL_MAX_INT, bits) {
        Ok(None)
    } else {
        match int_of_real(f, bits) {
            Err(s) => Err(s),
            Ok(n) => match int_answer(f, RealOp::FractionMillis, bits) {
                Err(s) => Err(s),
                Ok(millis) => if is_signed(bits) {
                    if fits(-millis) {
                        Ok(moved_by_millis(moment_of_seconds(n as int), -millis))
                    } else {
                        Ok(None)
                    }
                } else {
                    Ok(moved_by_millis(moment_of_seconds(n as int), millis as int))
                },
            },
        }
    }
}

fn parse_sqlite_unixepoch_real_value(facts: &RealFacts, bits: u64) -> (r: Eval<Option<DateParts>>)
    ensures
        plain_view(r) == moment_of_real(facts@, bits),
{
    if abs_bits(bits) >= INFINITY || below(bits, REAL_MIN_INT) || below(REAL_MAX_INT, bits) {
        return Ok(None);
    }
    let n: i64 = facts.to_int(bits)?;
    let parts = parse_sqlite_unixepoch_value(n);
    let millis: i64 = facts.int_result(RealOp::FractionMillis, bits)?;
    if bits >= SIGN {
        if millis == i64::MIN {
            return Ok(None);
        }
        Ok(shift_parsed_date_time_parts_by_millis(parts, -millis))
    } else {
        Ok(shift_parsed_date_time_parts_by_millis(parts, millis))
    }
}

/// The moment of a Julian day.
pub open spec fn moment_of_julian_day(f: Facts, bits: u64) -> Result<Option<DateParts>, StopView> {
    match int_answer(f, RealOp::DayNumber, bits) {
        Err(s) => Err(s),
        Ok(number) => match int_answer(f, RealOp::DayMillis, bits) {
            Err(s) => Err(s),
            Ok(millis) => {
                let days = number - 2_440_588;
                let shifted = days + millis as int / 86_400_000;
                if fits(days) && fits(shifted) {
                    Ok(Some(moment(shifted, millis as int % 86_400_000)))
                } else {
                    Ok(None)
                }
            },
        },
    }
}

fn parse_sqlite_julian_day_value(facts: &RealFacts, bits: u64) -> (r: Eval<Option<DateParts>>)
    ensures
        plain_view(r) == moment_of_julian_day(facts@, bits),
{
    let number: i64 = facts.int_result(RealOp::DayNumber, bits)?;
    let millis: i64 = facts.int_result(RealOp::DayMillis, bits)?;
    let days: i128 = number as i128 - 2_440_588;
    let shifted: i128 = days + floor_div(millis as i128, 86_400_000);
    if !fits_i64(days) || !fits_i64(shifted) {
        return Ok(None);
    }
    Ok(Some(moment_at(shifted as i64, floor_mod(millis as i128, 86_400_000))))
}

/// The moment of a number that is a Julian day or a number of seconds.
pub open spec fn moment_of_number(f: Facts, bits: u64) -> Result<Option<DateParts>, StopView> {
    if !is_nan(bits) && !real_below(bits, 0) && !real_below(LAST_JULIAN_DAY, bits) {
        moment_of_julian_day(f, bits)
    } else {
        moment_of_real(f, bits)
    }
}

fn parse_sqlite_auto_value(facts: &RealFacts, bits: u64) -> (r: Eval<Option<DateParts>>)
    ensures
        plain_view(r) == moment_of_number(facts@, bits),
{
    if abs_bits(bits) <= INFINITY && !below(bits, 0) && !below(LAST_JULIAN_DAY, bits) {
        parse_sqlite_julian_day_value(facts, bits)
    } else {
        parse_sqlite_unixepoch_real_value(facts, bits)
    }
}

// ---------------------------------------------------------------------------
// Modifiers

/// The text before an ending, where a text has it.
pub open spec fn before_ending(s: Seq<char>, ending: Seq<char>) -> Option<Seq<char>> {
    if s.len() >= ending.len() && occurs_at(s, ending, s.len() - ending.len()) {
        Some(s.take(s.len() - ending.len()))
    } else {
        None
    }
}

fn strip_ending(s: &str, ending: &str) -> (r: Option<String>)
    ensures
        match r {
            Some(t) => before_ending(s@, ending@) == Some(t@),
            None => before_ending(s@, ending@) is None,
        },
{
    let c = char_vec(s);
    let e = char_vec(ending);
    if c.len() < e.len() || !stands_at(&c, &e, c.len() - e.len()) {
        return None;
    }
    let t = text_of(&c, 0, c.len() - e.len());
    assert(t@ =~= s@.take(s@.len() - ending@.len()));
    Some(t)
}

/// A number of units of time, in milliseconds, that a modifier with an ending gives.
pub open spec fn millis_modifier(f: Facts, s: Seq<char>, ending: Seq<char>, unit: u64) -> Result<
    Option<i64>,
    StopView,
> {
    match before_ending(s, ending) {
        None => Ok(None),
        Some(t) => optional_int_answer(
            f,
            QuestionView { op: RealOp::ModifierMillis, a: unit, b: 0, text: trimmed(t) },
        ),
    }
}

fn parse_sqlite_modifier_offset_millis(facts: &RealFacts, s: &str, ending: &str, unit: u64) -> (r:
    Eval<Option<i64>>)
    ensures
        plain_view(r) == millis_modifier(facts@, s@, ending@, unit),
{
    match strip_ending(s, ending) {
        None => Ok(None),
        Some(t) => {
            let question = Question {
                op: RealOp::ModifierMillis,
                a: unit,
                b: 0,
                text: trim(t.as_str()),
            };
            assert(question@ =~= QuestionView {
                op: RealOp::ModifierMillis,
                a: unit,
                b: 0,
                text: trimmed(t@),
            });
            facts.optional_int_result(question)
        },
    }
}

/// A whole number that a modifier with an ending gives.
pub open spec fn whole_modifier(s: Seq<char>, ending: Seq<char>) -> Option<i64> {
    match before_ending(s, ending) {
        None => None,
        Some(t) => i64_of(trimmed(t)),
    }
}

fn parse_sqlite_modifier_offset(s: &str, ending: &str) -> (r: Option<i64>)
    ensures
        r == whole_modifier(s@, ending@),
{
    match strip_ending(s, ending) {
        None => None,
        Some(t) => text_i64(trim(t.as_str()).as_str()),
    }
}

/// The weekday that a modifier names.
pub open spec fn weekday_modifier(s: Seq<char>) -> Option<int> {
    let start = "weekday "@;
    if occurs_at(s, start, 0) {
        match i64_of(trimmed(s.skip(start.len() as int))) {
            Some(n) => if 0 <= n <= 6 {
                Some(n as int)
            } else {
                None
            },
            None => None,
        }
    } else {
        None
    }
}

fn parse_sqlite_weekday_modifier(s: &str) -> (r: Option<i64>)
    ensures
        match r {
            Some(n) => weekday_modifier(s@) == Some(n as int) && 0 <= n <= 6,
            None => weekday_modifier(s@) is None,
        },
{
    let c = char_vec(s);
    let start = char_vec("weekday ");
    if !stands_at(&c, &start, 0) {
        return None;
    }
    let tail = text_of(&c, start.len(), c.len());
    assert(tail@ =~= s@.skip(start@.len() as int));
    match text_i64(trim(tail.as_str()).as_str()) {
        Some(n) => {
            if n < 0 || n > 6 {
                None
            } else {
                Some(n)
            }
        },
        None => None,
    }
}

/// A moment at midnight of a day.
pub open spec fn midnight(year: i64, month: i64, day: i64) -> DateParts {
    DateParts { year, month, day, hour: 0, minute: 0, second: 0, millisecond: 0 }
}

/// A moment changed by a modifier that moves it by months or to a weekday.
pub open spec fn modified_by_calendar(
    p: DateParts,
    m: Seq<char>,
    rounding: DateShiftRounding,
) -> Option<DateParts> {
    if whole_modifier(m, " month"@) is Some {
        moved_by_months(p, whole_modifier(m, " month"@)->Some_0 as int, rounding)
    } else if whole_modifier(m, " year"@) is Some {
        let n = whole_modifier(m, " year"@)->Some_0;
        if fits(n * 12) {
            moved_by_months(p, n * 12, rounding)
        } else {
            None
        }
    } else if weekday_modifier(m) is Some {
        moved_to_weekday(p, weekday_modifier(m)->Some_0)
    } else {
        None
    }
}

/// A moment changed by a modifier; nothing where there is no such modifier.
pub open spec fn modified(
    f: Facts,
    p: DateParts,
    modifier: Seq<char>,
    rounding: DateShiftRounding,
) -> Result<Option<DateParts>, StopView> {
    let m = trimmed(modifier);
    if same_letters(m, "start of day"@) {
        Ok(Some(midnight(p.year, p.month, p.day)))
    } else if same_letters(m, "start of month"@) {
        Ok(Some(midnight(p.year, p.month, 1)))
    } else if same_letters(m, "start of year"@) {
        Ok(Some(midnight(p.year, 1, 1)))
    } else {
        match millis_modifier(f, m, " day"@, 86_400_000) {
            Err(s) => Err(s),
            Ok(Some(n)) => Ok(moved_by_millis(p, n as int)),
            Ok(None) => match millis_modifier(f, m, " hour"@, 3_600_000) {
                Err(s) => Err(s),
                Ok(Some(n)) => Ok(moved_by_millis(p, n as int)),
                Ok(None) => match millis_modifier(f, m, " minute"@, 60_000) {
                    Err(s) => Err(s),
                    Ok(Some(n)) => Ok(moved_by_millis(p, n as int)),
                    Ok(None) => match millis_modifier(f, m, " second"@, 1_000) {
                        Err(s) => Err(s),
                        Ok(Some(n)) => Ok(moved_by_millis(p, n as int)),
                        Ok(None) => Ok(modified_by_calendar(p, m, rounding)),
                    },
                },
            },
        }
    }
}

/// A moment changed by a modifier.
pub fn apply_sqlite_date_time_modifier(
    facts: &RealFacts,
    p: DateParts,
    modifier: &str,
    rounding: DateShiftRounding,
) -> (r: Eval<Option<DateParts>>)
    ensures
        plain_view(r) == modified(facts@, p, modifier@, rounding),
{
    let m = trim(modifier);
    let m = m.as_str();
    if same_but_case(m, "start of day") {
        return Ok(Some(DateParts { hour: 0, minute: 0, second: 0, millisecond: 0, ..p }));
    }
    if same_but_case(m, "start of month") {
        return Ok(Some(DateParts { day: 1, hour: 0, minute: 0, second: 0, millisecond: 0, ..p }));
    }
    if same_but_case(m, "start of year") {
        return Ok(
            Some(
                DateParts {
                    year: p.year,
                    month: 1,
                    day: 1,
                    hour: 0,
                    minute: 0,
                    second: 0,
                    millisecond: 0,
                },
            ),
        );
    }
    if let Some(n) = parse_sqlite_modifier_offset_millis(facts, m, " day", 86_400_000)? {
        return Ok(shift_parsed_date_time_parts_by_millis(p, n));
    }
    if let Some(n) = parse_sqlite_modifier_offset_millis(facts, m, " hour", 3_600_000)? {
        return Ok(shift_parsed_date_time_parts_by_millis(p, n));
    }
    if let Some(n) = parse_sqlite_modifier_offset_millis(facts, m, " minute", 60_000)? {
        return Ok(shift_parsed_date_time_parts_by_millis(p, n));
    }
    if let Some(n) = parse_sqlite_modifier_offset_millis(facts, m, " second", 1_000)? {
        return Ok(shift_parsed_date_time_parts_by_millis(p, n));
    }
    if let Some(n) = parse_sqlite_modifier_offset(m, " month") {
        return Ok(shift_parsed_date_time_parts_by_months(p, n, rounding));
    }
    if let Some(n) = parse_sqlite_modifier_offset(m, " year") {
        let months: i128 = n as i128 * 12;
        if !fits_i64(months) {
            return Ok(None);
        }
        return Ok(shift_parsed_date_time_parts_by_months(p, months as i64, rounding));
    }
    if let Some(target) = parse_sqlite_weekday_modifier(m) {
        return Ok(shift_parsed_date_time_parts_to_weekday(p, target));
    }
    Ok(None)
}

// ---------------------------------------------------------------------------
// Arguments

/// The texts of the modifiers from a position on, behind those before; nothing where one is
/// null.
pub open spec fn modifiers_from(f: Facts, args: Seq<SqlValue>, i: int, done: Seq<Seq<char>>) -> Result<
    Option<Seq<Seq<char>>>,
    StopView,
>
    decreases args.len() - i,
{
    if i < 0 || i >= args.len() {
        Ok(Some(done))
    } else if args[i] is Null {
        Ok(None)
    } else {
        match value_text(f, args[i]) {
            Err(s) => Err(s),
            Ok(t) => modifiers_from(f, args, i + 1, done.push(t)),
        }
    }
}

fn collect_date_time_modifiers(facts: &RealFacts, args: &[DbValue]) -> (r: Eval<
    Option<Vec<String>>,
>)
    ensures
        match r {
            Ok(Some(v)) => modifiers_from(facts@, args.deep_view(), 1, Seq::empty()) == Ok::<
                _,
                StopView,
            >(Some(texts(v@))),
            Ok(None) => modifiers_from(facts@, args.deep_view(), 1, Seq::empty()) == Ok::<
                Option<Seq<Seq<char>>>,
                StopView,
            >(None),
            Err(s) => modifiers_from(facts@, args.deep_view(), 1, Seq::empty()) == Err::<
                Option<Seq<Seq<char>>>,
                _,
            >(s@),
        },
{
    let mut v: Vec<String> = Vec::new();
    let mut i: usize = 1;
    assert(texts(v@) =~= Seq::<Seq<char>>::empty());
    while i < args.len()
        invariant
            1 <= i,
            i <= args@.len() || i == 1,
            modifiers_from(facts@, args.deep_view(), i as int, texts(v@)) == modifiers_from(
                facts@,
                args.deep_view(),
                1,
                Seq::empty(),
            ),
        decreases args@.len() - i,
    {
        assert(args.deep_view()[i as int] == args@[i as int]@);
        if let DbValue::Null = &args[i] {
            return Ok(None);
        }
        let t = coerce_text_like_value(facts, &args[i])?;
        let ghost before = texts(v@);
        v.push(t);
        assert(texts(v@) =~= before.push(t@));
        i = i + 1;
    }
    Ok(Some(v))
}

/// Whether a modifier from a position on says how a number is to be read.
pub open spec fn reading_from(m: Seq<Seq<char>>, i: int) -> bool
    decreases m.len() - i,
{
    if i < 0 || i >= m.len() {
        false
    } else {
        same_letters(m[i], "unixepoch"@) || same_letters(m[i], "auto"@) || reading_from(m, i + 1)
    }
}

/// Whether a modifier does not change a moment.
pub open spec fn is_passive(m: Seq<char>) -> bool {
    same_letters(m, "unixepoch"@) || same_letters(m, "auto"@) || same_letters(m, "subsec"@)
        || same_letters(m, "subsecond"@) || same_letters(m, "floor"@) || same_letters(
        m,
        "ceiling"@,
    )
}

fn passive(m: &str) -> (r: bool)
    ensures
        r == is_passive(m@),
{
    same_but_case(m, "unixepoch") || same_but_case(m, "auto") || same_but_case(m, "subsec")
        || same_but_case(m, "subsecond") || same_but_case(m, "floor") || same_but_case(m, "ceiling")
}

/// The rounding that the modifier at a position asks for.
pub open spec fn rounding_at(m: Seq<Seq<char>>, i: int) -> Option<DateShiftRounding> {
    if 0 <= i < m.len() && same_letters(m[i], "floor"@) {
        Some(DateShiftRounding::Floor)
    } else if 0 <= i < m.len() && same_letters(m[i], "ceiling"@) {
        Some(DateShiftRounding::Ceiling)
    } else {
        None
    }
}

/// A moment changed by the modifiers from a position on.
pub open spec fn modified_from(f: Facts, m: Seq<Seq<char>>, i: int, p: Option<DateParts>) -> Result<
    Option<DateParts>,
    StopView,
>
    decreases m.len() - i,
{
    if i < 0 || i >= m.len() {
        Ok(p)
    } else if is_passive(m[i]) {
        modified_from(f, m, i + 1, p)
    } else {
        let rounding = rounding_at(m, i + 1);
        let next = if rounding is Some {
            i + 2
        } else {
            i + 1
        };
        match p {
            None => modified_from(f, m, next, None),
            Some(parts) => match modified(
                f,
                parts,
                m[i],
                match rounding {
                    Some(r) => r,
                    None => DateShiftRounding::Ceiling,
                },
            ) {
                Err(s) => Err(s),
                Ok(q) => modified_from(f, m, next, q),
            },
        }
    }
}

/// The moment that a value gives by itself.
pub open spec fn moment_of_value(f: Facts, v: SqlValue, epoch: bool, auto_mode: bool) -> Result<
    Option<DateParts>,
    StopView,
> {
    match v {
        SqlValue::Text(t) => moment_of_some_text(f, t, epoch, auto_mode),
        SqlValue::Blob(b) => moment_of_some_text(f, lossy_text(b), epoch, auto_mode),
        SqlValue::Integer(i) => if epoch {
            Ok(Some(moment_of_seconds(i as int)))
        } else if auto_mode {
            match real_of_int(f, i) {
                Err(s) => Err(s),
                Ok(bits) => moment_of_number(f, bits),
            }
        } else {
            Ok(None)
        },
        SqlValue::Real(bits) => if epoch {
            moment_of_real(f, bits)
        } else if auto_mode {
            moment_of_number(f, bits)
        } else {
            Ok(None)
        },
        _ => Ok(None),
    }
}

/// The moment that a text gives: a number where that is asked for.
pub open spec fn moment_of_some_text(f: Facts, t: Seq<char>, epoch: bool, auto_mode: bool) -> Result<
    Option<DateParts>,
    StopView,
> {
    if epoch || auto_mode {
        match parsed_real(f, t) {
            Err(s) => Err(s),
            Ok(None) => Ok(None),
            Ok(Some(bits)) => if epoch {
                moment_of_real(f, bits)
            } else {
                moment_of_number(f, bits)
            },
        }
    } else {
        moment_of_text(f, t)
    }
}

fn some_text(facts: &RealFacts, t: String, epoch: bool, auto_mode: bool) -> (r: Eval<
    Option<DateParts>,
>)
    ensures
        plain_view(r) == moment_of_some_text(facts@, t@, epoch, auto_mode),
{
    if epoch || auto_mode {
        match facts.parse(t)? {
            None => Ok(None),
            Some(bits) => {
                if epoch {
                    parse_sqlite_unixepoch_real_value(facts, bits)
                } else {
                    parse_sqlite_auto_value(facts, bits)
                }
            },
        }
    } else {
        parse_sqlite_date_time_text(facts, t.as_str())
    }
}

fn value_moment(facts: &RealFacts, v: &DbValue, epoch: bool, auto_mode: bool) -> (r: Eval<
    Option<DateParts>,
>)
    ensures
        plain_view(r) == moment_of_value(facts@, v@, epoch, auto_mode),
{
    match v {
        DbValue::Text(t) => some_text(facts, t.clone(), epoch, auto_mode),
        DbValue::Blob(b) => some_text(facts, lossy(b.as_slice()), epoch, auto_mode),
        DbValue::Integer(i) => {
            if epoch {
                Ok(Some(parse_sqlite_unixepoch_value(*i)))
            } else if auto_mode {
                let bits: u64 = facts.of_int(*i)?;
                parse_sqlite_auto_value(facts, bits)
            } else {
                Ok(None)
            }
        },
        DbValue::Real(bits) => {
            if epoch {
                parse_sqlite_unixepoch_real_value(facts, *bits)
            } else if auto_mode {
                parse_sqlite_auto_value(facts, *bits)
            } else {
                Ok(None)
            }
        },
        _ => Ok(None),
    }
}

/// The moment that the arguments of a date function give: a value, and modifiers. Without
/// arguments it is now.
pub open spec fn moment_of_args(f: Facts, args: Seq<SqlValue>) -> Result<Option<DateParts>, StopView> {
    match modifiers_from(f, args, 1, Seq::empty()) {
        Err(s) => Err(s),
        Ok(None) => Ok(None),
        Ok(Some(m)) => {
            let epoch = m.len() > 0 && same_letters(m[0], "unixepoch"@);
            let auto_mode = m.len() > 0 && same_letters(m[0], "auto"@);
            let v = if args.len() > 0 {
                args[0]
            } else {
                SqlValue::Text("now"@)
            };
            if reading_from(m, 1) || v is Null {
                Ok(None)
            } else {
                match moment_of_value(f, v, epoch, auto_mode) {
                    Err(s) => Err(s),
                    Ok(p) => modified_from(f, m, 0, p),
                }
            }
        },
    }
}

fn has_later_reading(m: &Vec<String>) -> (r: bool)
    ensures
        r == reading_from(texts(m@), 1),
{
    let mut i: usize = 1;
    while i < m.len()
        invariant
            1 <= i,
            reading_from(texts(m@), i as int) == reading_from(texts(m@), 1),
        decreases m@.len() - i,
    {
        assert(texts(m@)[i as int] == m@[i as int]@);
        if same_but_case(m[i].as_str(), "unixepoch") || same_but_case(m[i].as_str(), "auto") {
            return true;
        }
        i = i + 1;
    }
    false
}

fn read_rounding(m: &Vec<String>, i: usize) -> (r: Option<DateShiftRounding>)
    ensures
        r == rounding_at(texts(m@), i as int),
{
    if i >= m.len() {
        return None;
    }
    assert(texts(m@)[i as int] == m@[i as int]@);
    if same_but_case(m[i].as_str(), "floor") {
        Some(DateShiftRounding::Floor)
    } else if same_but_case(m[i].as_str(), "ceiling") {
        Some(DateShiftRounding::Ceiling)
    } else {
        None
    }
}

fn apply_modifiers(facts: &RealFacts, m: &Vec<String>, start: Option<DateParts>) -> (r: Eval<
    Option<DateParts>,
>)
    ensures
        plain_view(r) == modified_from(facts@, texts(m@), 0, start),
{
    let mut parts: Option<DateParts> = start;
    let mut k: usize = 0;
    let total: usize = m.len();
    while k < total
        invariant
            total == m@.len(),
            k <= total + 1,
            modified_from(facts@, texts(m@), k as int, parts) == modified_from(
                facts@,
                texts(m@),
                0,
                start,
            ),
        decreases total - k,
    {
        assert(texts(m@)[k as int] == m@[k as int]@);
        if passive(m[k].as_str()) {
            k = k + 1;
            continue ;
        }
        let rounding = read_rounding(m, k + 1);
        let chosen = match rounding {
            Some(r) => r,
            None => DateShiftRounding::Ceiling,
        };
        parts = match parts {
            None => None,
            Some(p) => apply_sqlite_date_time_modifier(facts, p, m[k].as_str(), chosen)?,
        };
        k = if rounding.is_some() {
            k + 2
        } else {
            k + 1
        };
    }
    Ok(parts)
}

/// The moment that the arguments of a date function give.
pub fn parse_date_time_args(facts: &RealFacts, args: &[DbValue]) -> (r: Eval<Option<DateParts>>)
    ensures
        plain_view(r) == moment_of_args(facts@, args.deep_view()),
{
    let m = match collect_date_time_modifiers(facts, args)? {
        Some(m) => m,
        None => {
            return Ok(None);
        },
    };
    assert(m@.len() > 0 ==> texts(m@)[0] == m@[0]@);
    let epoch = m.len() > 0 && same_but_case(m[0].as_str(), "unixepoch");
    let auto_mode = m.len() > 0 && same_but_case(m[0].as_str(), "auto");
    if has_later_reading(&m) {
        return Ok(None);
    }
    let now = DbValue::Text("now".to_owned());
    let v: &DbValue = if args.len() > 0 {
        &args[0]
    } else {
        &now
    };
    if let DbValue::Null = v {
        return Ok(None);
    }
    let parts = value_moment(facts, v, epoch, auto_mode)?;
    apply_modifiers(facts, &m, parts)
}

/// Whether an argument from a position on asks for fractions of a second.
pub open spec fn subsecond_from(f: Facts, args: Seq<SqlValue>, i: int) -> Result<bool, StopView>
    decreases args.len() - i,
{
    if i < 0 || i >= args.len() {
        Ok(false)
    } else if args[i] is Null {
        subsecond_from(f, args, i + 1)
    } else {
        match value_text(f, args[i]) {
            Err(s) => Err(s),
            Ok(t) => if same_letters(t, "subsec"@) || same_letters(t, "subsecond"@) {
                Ok(true)
            } else {
                subsecond_from(f, args, i + 1)
            },
        }
    }
}

/// Whether an argument asks for fractions of a second.
pub fn date_time_args_have_subsecond(facts: &RealFacts, args: &[DbValue]) -> (r: Eval<bool>)
    ensures
        plain_view(r) == subsecond_from(facts@, args.deep_view(), 1),
{
    let mut i: usize = 1;
    while i < args.len()
        invariant
            1 <= i,
            subsecond_from(facts@, args.deep_view(), i as int) == subsecond_from(
                facts@,
                args.deep_view(),
                1,
            ),
        decreases args@.len() - i,
    {
        assert(args.deep_view()[i as int] == args@[i as int]@);
        match &args[i] {
            DbValue::Null => {},
            v => {
                let t = coerce_text_like_value(facts, v)?;
                if same_but_case(t.as_str(), "subsec") || same_but_case(t.as_str(), "subsecond") {
                    return Ok(true);
                }
            },
        }
        i = i + 1;
    }
    Ok(false)
}

} // verus!
