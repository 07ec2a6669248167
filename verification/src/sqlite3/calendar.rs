//! Days, months and years.

use vstd::prelude::*;

verus! {

/// A moment, in the calendar. A day may lie beyond the end of its month.
#[derive(Debug, Clone, Copy, PartialEq, Eq, Structural)]
pub struct DateParts {
    pub year: i64,
    pub month: i64,
    pub day: i64,
    pub hour: i64,
    pub minute: i64,
    pub second: i64,
    pub millisecond: i64,
}

/// Where a month is too short for a day: into the next month, or to the last day.
#[derive(Debug, Clone, Copy, PartialEq, Eq, Structural)]
pub enum DateShiftRounding {
    Ceiling,
    Floor,
}

/// Whether an integer fits 64 bits.
pub open spec fn fits(n: int) -> bool {
    i64::MIN <= n <= i64::MAX
}

/// Whether an integer fits 64 bits.
pub fn fits_i64(n: i128) -> (r: bool)
    ensures
        r == fits(n as int),
{
    i64::MIN as i128 <= n && n <= i64::MAX as i128
}

/// The quotient rounded down.
pub fn floor_div(a: i128, b: i128) -> (r: i128)
    requires
        0 < b <= 0x1_0000_0000_0000_0000,
        -0x1_0000_0000_0000_0000_0000_0000 <= a <= 0x1_0000_0000_0000_0000_0000_0000,
    ensures
        r == a as int / b as int,
{
    if a >= 0 {
        a / b
    } else {
        let k: i128 = (-a + b - 1) / b;
        proof {
            let a = a as int;
            let b = b as int;
            let k = k as int;
            vstd::arithmetic::div_mod::lemma_fundamental_div_mod(-a + b - 1, b);
            vstd::arithmetic::div_mod::lemma_mod_bound(-a + b - 1, b);
            assert(a == (-k) * b + (a + k * b)) by (nonlinear_arith);
            assert(b * k == k * b) by (nonlinear_arith);
            vstd::arithmetic::div_mod::lemma_fundamental_div_mod_converse(a, b, -k, a + k * b);
            assert(0 <= k <= -a + b - 1) by (nonlinear_arith)
                requires
                    k == (-a + b - 1) / b,
                    b >= 1,
                    -a + b - 1 >= 0,
            ;
        }
        -k
    }
}

/// The remainder of a quotient rounded down.
pub fn floor_mod(a: i128, b: i128) -> (r: i128)
    requires
        0 < b <= 0x1_0000_0000_0000_0000,
        -0x1_0000_0000_0000_0000_0000_0000 <= a <= 0x1_0000_0000_0000_0000_0000_0000,
    ensures
        r == a as int % b as int,
        0 <= r < b,
{
    let q: i128 = floor_div(a, b);
    proof {
        vstd::arithmetic::div_mod::lemma_fundamental_div_mod(a as int, b as int);
        vstd::arithmetic::div_mod::lemma_mod_bound(a as int, b as int);
        assert((b as int) * (q as int) == (q as int) * (b as int)) by (nonlinear_arith);
    }
    a - q * b
}

/// The number of the era that a number falls in: for negative numbers the one before, unless
/// they are the last of theirs.
pub open spec fn era_of(n: int, len: int) -> int {
    (if n >= 0 {
        n
    } else {
        n - (len - 1)
    }) / len
}

/// The number of a day, counted from the start of 1970.
pub open spec fn day_number(year: int, month: int, day: int) -> int {
    let y = year - if month <= 2 {
        1int
    } else {
        0int
    };
    let era = era_of(y, 400);
    let yoe = y - era * 400;
    let mp = month + if month > 2 {
        -3int
    } else {
        9int
    };
    let doy = (153 * mp + 2) / 5 + day - 1;
    let doe = yoe * 365 + yoe / 4 - yoe / 100 + doy;
    era * 146_097 + doe - 719_468
}

/// The year, month and day of a day with a number.
pub open spec fn civil_date(days: int) -> (int, int, int) {
    let z = days + 719_468;
    let era = era_of(z, 146_097);
    let doe = z - era * 146_097;
    let yoe = (doe - doe / 1_460 + doe / 36_524 - doe / 146_096) / 365;
    let doy = doe - (365 * yoe + yoe / 4 - yoe / 100);
    let mp = (5 * doy + 2) / 153;
    let day = doy - (153 * mp + 2) / 5 + 1;
    let month = mp + if mp < 10 {
        3int
    } else {
        -9int
    };
    (
        yoe + era * 400 + if month <= 2 {
            1int
        } else {
            0int
        },
        month,
        day,
    )
}

/// The number of a day, counted from the start of 1970.
pub fn days_from_civil(year: i64, month: i64, day: i64) -> (r: i128)
    ensures
        r == day_number(year as int, month as int, day as int),
        -0x1_0000_0000_0000_0000_0000 <= r <= 0x1_0000_0000_0000_0000_0000,
{
    let y: i128 = year as i128 - if month <= 2 {
        1
    } else {
        0
    };
    let era: i128 = floor_div(
        if y >= 0 {
            y
        } else {
            y - 399
        },
        400,
    );
    let yoe: i128 = y - era * 400;
    let mp: i128 = month as i128 + if month > 2 {
        -3
    } else {
        9
    };
    let doy: i128 = floor_div(153 * mp + 2, 5) + day as i128 - 1;
    let doe: i128 = yoe * 365 + floor_div(yoe, 4) - floor_div(yoe, 100) + doy;
    era * 146_097 + doe - 719_468
}

/// The year, month and day of a day with a number.
pub fn civil_from_days(days: i64) -> (r: (i64, i64, i64))
    ensures
        (r.0 as int, r.1 as int, r.2 as int) == civil_date(days as int),
{
    let z: i128 = days as i128 + 719_468;
    let era: i128 = floor_div(
        if z >= 0 {
            z
        } else {
            z - 146_096
        },
        146_097,
    );
    let doe: i128 = z - era * 146_097;
    let yoe: i128 = floor_div(
        doe - floor_div(doe, 1_460) + floor_div(doe, 36_524) - floor_div(doe, 146_096),
        365,
    );
    let doy: i128 = doe - (365 * yoe + floor_div(yoe, 4) - floor_div(yoe, 100));
    let mp: i128 = floor_div(5 * doy + 2, 153);
    let day: i128 = doy - floor_div(153 * mp + 2, 5) + 1;
    let month: i128 = mp + if mp < 10 {
        3
    } else {
        -9
    };
    let year: i128 = yoe + era * 400 + if month <= 2 {
        1
    } else {
        0
    };
    (year as i64, month as i64, day as i64)
}

/// The number of days of a month.
pub open spec fn month_days(year: int, month: int) -> int {
    if month == 12 {
        day_number(year + 1, 1, 1) - day_number(year, month, 1)
    } else {
        day_number(year, month + 1, 1) - day_number(year, month, 1)
    }
}

/// From the first of March of the year zero on, the number of the day with a number's date
/// is that number.
pub proof fn law_day_number_of_civil_date(days: int)
    requires
        days >= -719_468,
    ensures
        ({
            let (y, m, d) = civil_date(days);
            day_number(y, m, d) == days && 1 <= m <= 12 && 1 <= d <= 31
        }),
{
    let z = days + 719_468;
    let era = z / 146_097;
    let doe = z - era * 146_097;
    assert(0 <= doe < 146_097);
    let yoe = (doe - doe / 1_460 + doe / 36_524 - doe / 146_096) / 365;
    assert(0 <= yoe <= 399);
    let start = 365 * yoe + yoe / 4 - yoe / 100;
    let doy = doe - start;
    assert(0 <= doy <= 365);
    let mp = (5 * doy + 2) / 153;
    assert(0 <= mp <= 11);
    let day = doy - (153 * mp + 2) / 5 + 1;
    assert(1 <= day <= 31);
    let (y, m, d) = civil_date(days);
    assert(d == day);
    let shifted = y - if m <= 2 {
        1int
    } else {
        0int
    };
    assert(shifted == yoe + era * 400);
    assert(shifted / 400 == era);
}

} // verus!
