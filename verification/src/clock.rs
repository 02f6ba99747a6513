//! Calendar arithmetic for the timestamps frames carry.
//!
//! EXIF timestamps carry no time zone, and the format plugins read them as
//! UTC, so they are printed back the same way: within one imaging session that
//! makes the displayed times match what the camera showed.
use vstd::prelude::*;

use crate::text::{concat, decimal, decimal_of, pad_left, padded_left, string_of};

verus! {

/// Whether a (proleptic Gregorian) year has a 29th of February.
pub open spec fn is_leap_year(year: int) -> bool {
    year % 4 == 0 && (year % 100 != 0 || year % 400 == 0)
}

/// How many days a month of a year has.
pub open spec fn month_length(year: int, month: int) -> int {
    if month == 2 {
        if is_leap_year(year) {
            29
        } else {
            28
        }
    } else if month == 4 || month == 6 || month == 9 || month == 11 {
        30
    } else {
        31
    }
}

/// A day that exists on the calendar.
pub open spec fn valid_date(year: int, month: int, day: int) -> bool {
    1 <= month <= 12 && 1 <= day <= month_length(year, month)
}

/// Days before the start of year `yoe` of a 400-year era, counted from the
/// first of March of the era's first year.
pub open spec fn era_year_start(yoe: int) -> int {
    365 * yoe + yoe / 4 - yoe / 100
}

/// Days from 1970-01-01 to a date: the days-from-civil count the format
/// plugins parse timestamps with. Years run from March, so that the leap day
/// falls at the end of one.
pub open spec fn days_from_civil(year: int, month: int, day: int) -> int {
    let y = if month <= 2 { year - 1 } else { year };
    let era = y / 400;
    let yoe = y - era * 400;
    let shifted_month = if month > 2 { month - 3 } else { month + 9 };
    let day_of_year = (153 * shifted_month + 2) / 5 + day - 1;
    era * 146097 + era_year_start(yoe) + day_of_year - 719468
}

proof fn lemma_year_of_era(doe: int)
    requires
        0 <= doe <= 146096,
    ensures
        ({
            let yoe = (doe - doe / 1460 + doe / 36524 - doe / 146096) / 365;
            &&& 0 <= yoe <= 399
            &&& era_year_start(yoe) <= doe
            &&& (doe < era_year_start(yoe + 1) || (yoe == 399 && doe == 146096))
        }),
{
}

proof fn lemma_month_of_year(doy: int)
    requires
        0 <= doy <= 365,
    ensures
        ({
            let mp = (5 * doy + 2) / 153;
            let d = doy - (153 * mp + 2) / 5 + 1;
            &&& 0 <= mp <= 11
            &&& 1 <= d
            &&& mp == 11 ==> d <= 29 && (d == 29 <==> doy == 365)
            &&& mp == 0 || mp == 2 || mp == 4 || mp == 5 || mp == 7 || mp == 9 || mp == 10 ==> d <= 31
            &&& mp == 1 || mp == 3 || mp == 6 || mp == 8 ==> d <= 30
        }),
{
}

/// Where a valid date falls within its 400-year era: the era, the year of the
/// era, and the day of that (March-based) year.
proof fn lemma_era_parts(year: int, month: int, day: int)
    requires
        valid_date(year, month, day),
    ensures
        ({
            let y = if month <= 2 { year - 1 } else { year };
            let era = y / 400;
            let yoe = y - era * 400;
            let shifted_month = if month > 2 { month - 3 } else { month + 9 };
            let doy = (153 * shifted_month + 2) / 5 + day - 1;
            &&& 0 <= yoe <= 399
            &&& 0 <= doy <= 365
            &&& (doy == 365 ==> (yoe == 399 || era_year_start(yoe + 1) - era_year_start(yoe) == 366))
            &&& days_from_civil(year, month, day) == era * 146097 + era_year_start(yoe) + doy - 719468
        }),
{
    let y = if month <= 2 { year - 1 } else { year };
    let era = y / 400;
    let yoe = y - era * 400;
    if month == 2 && day == 29 {
        assert(year % 4 == (yoe + 1) % 4 && year % 100 == (yoe + 1) % 100 && year % 400 == (yoe + 1) % 400)
            by (nonlinear_arith)
            requires
                year == yoe + era * 400 + 1,
        ;
    }
}

/// Two dates on the calendar never share a day count: the count names the
/// date, so converting it back gives the date it came from.
pub proof fn law_day_count_names_the_date(y1: int, m1: int, d1: int, y2: int, m2: int, d2: int)
    requires
        valid_date(y1, m1, d1),
        valid_date(y2, m2, d2),
        days_from_civil(y1, m1, d1) == days_from_civil(y2, m2, d2),
    ensures
        y1 == y2 && m1 == m2 && d1 == d2,
{
    lemma_era_parts(y1, m1, d1);
    lemma_era_parts(y2, m2, d2);
    let a = if m1 <= 2 { y1 - 1 } else { y1 };
    let b = if m2 <= 2 { y2 - 1 } else { y2 };
    let (ea, eb) = (a / 400, b / 400);
    let (ya, yb) = (a - ea * 400, b - eb * 400);
    let sa = if m1 > 2 { m1 - 3 } else { m1 + 9 };
    let sb = if m2 > 2 { m2 - 3 } else { m2 + 9 };
    let (da, db) = ((153 * sa + 2) / 5 + d1 - 1, (153 * sb + 2) / 5 + d2 - 1);
    let (oa, ob) = (era_year_start(ya) + da, era_year_start(yb) + db);
    assert(0 <= oa <= 146096 && 0 <= ob <= 146096);
    assert(ea == eb) by (nonlinear_arith)
        requires
            ea * 146097 + oa == eb * 146097 + ob,
            0 <= oa <= 146096,
            0 <= ob <= 146096,
    ;
    assert(ya == yb) by {
        if ya < yb {
            assert(era_year_start(ya + 1) <= era_year_start(yb));
        } else if yb < ya {
            assert(era_year_start(yb + 1) <= era_year_start(ya));
        }
    }
    assert(sa == sb);
    assert(a == b);
}

/// The date a count of days since 1970-01-01 falls on: the inverse of
/// [`days_from_civil`].
pub fn civil_from_days(days: i64) -> (r: (i64, u32, u32))
    requires
        days <= i64::MAX - 719_468,
    ensures
        valid_date(r.0 as int, r.1 as int, r.2 as int),
        days_from_civil(r.0 as int, r.1 as int, r.2 as int) == days,
{
    let z: i64 = days + 719_468;
    let era: i64 = if z >= 0 {
        z / 146_097
    } else {
        -((-(z + 1)) / 146_097) - 1
    };
    assert(era == z / 146_097) by (nonlinear_arith)
        requires
            z >= 0 ==> era == z / 146_097,
            z < 0 ==> era == -((-(z + 1)) / 146_097) - 1,
    ;
    let day_of_era: i64 = z - era * 146_097;
    proof {
        lemma_year_of_era(day_of_era as int);
    }
    let year_of_era: i64 = (day_of_era - day_of_era / 1460 + day_of_era / 36524 - day_of_era / 146_096) / 365;
    let year: i64 = year_of_era + era * 400;
    let day_of_year: i64 = day_of_era - (365 * year_of_era + year_of_era / 4 - year_of_era / 100);
    proof {
        lemma_month_of_year(day_of_year as int);
    }
    let shifted_month: i64 = (5 * day_of_year + 2) / 153;
    let day: u32 = (day_of_year - (153 * shifted_month + 2) / 5 + 1) as u32;
    let month: u32 = if shifted_month < 10 {
        (shifted_month + 3) as u32
    } else {
        (shifted_month - 9) as u32
    };
    let full_year: i64 = if month <= 2 {
        year + 1
    } else {
        year
    };
    proof {
        let y = if month <= 2 { full_year - 1 } else { full_year as int };
        assert(y == year);
        assert(y / 400 == era) by (nonlinear_arith)
            requires
                y == year_of_era + era * 400,
                0 <= year_of_era <= 399,
        ;
        if month == 2 && day == 29 {
            // The 29th only exists when the era year that ends with this
            // February is one day longer than 365.
            assert(full_year % 400 == (year_of_era + 1) % 400) by (nonlinear_arith)
                requires
                    full_year == year_of_era + era * 400 + 1,
            ;
            assert(full_year % 4 == (year_of_era + 1) % 4) by (nonlinear_arith)
                requires
                    full_year == year_of_era + era * 400 + 1,
            ;
            assert(full_year % 100 == (year_of_era + 1) % 100) by (nonlinear_arith)
                requires
                    full_year == year_of_era + era * 400 + 1,
            ;
        }
    }
    (full_year, month, day)
}

/// `n` in decimal, zero-padded after any sign to `width` characters: what
/// `{:0width$}` prints for an integer.
pub open spec fn zero_padded(n: int, width: nat) -> Seq<char> {
    if n < 0 {
        seq!['-'] + pad_left(decimal((-n) as nat), (width - 1) as nat, '0')
    } else {
        pad_left(decimal(n as nat), width, '0')
    }
}

/// `YYYY-MM-DD HH:MM:SS`.
pub open spec fn timestamp_text(year: int, month: int, day: int, hour: int, minute: int, second: int) -> Seq<char> {
    zero_padded(year, 4) + seq!['-'] + zero_padded(month, 2) + seq!['-'] + zero_padded(day, 2) + seq![' ']
        + zero_padded(hour, 2) + seq![':'] + zero_padded(minute, 2) + seq![':'] + zero_padded(second, 2)
}

fn zero_padded_of(n: i64, width: usize) -> (out: Vec<char>)
    requires
        n > i64::MIN,
        width >= 1,
    ensures
        out@ == zero_padded(n as int, width as nat),
{
    if n < 0 {
        let magnitude: u64 = (-n) as u64;
        let digits = padded_left(&decimal_of(magnitude), width - 1, '0');
        let mut sign: Vec<char> = Vec::new();
        sign.push('-');
        proof {
            assert(sign@ =~= seq!['-']);
        }
        concat(&sign, &digits)
    } else {
        padded_left(&decimal_of(n as u64), width, '0')
    }
}

fn one(c: char) -> (out: Vec<char>)
    ensures
        out@ == seq![c],
{
    let mut out: Vec<char> = Vec::new();
    out.push(c);
    proof {
        assert(out@ =~= seq![c]);
    }
    out
}

/// Renders seconds since the epoch as `YYYY-MM-DD HH:MM:SS`, in UTC.
pub fn timestamp(unix_seconds: i64) -> (r: String)
    ensures
        exists|year: int, month: int, day: int|
            valid_date(year, month, day) && #[trigger] days_from_civil(year, month, day) == unix_seconds / 86400
                && r@ == timestamp_text(
                year,
                month,
                day,
                (unix_seconds % 86400) / 3600,
                (unix_seconds % 86400) % 3600 / 60,
                (unix_seconds % 60) as int,
            ),
{
    // Floor division and its remainder, written so that neither can overflow
    // at the ends of the range.
    let days: i64 = if unix_seconds >= 0 {
        unix_seconds / 86_400
    } else {
        -((-(unix_seconds + 1)) / 86_400) - 1
    };
    let time_of_day: i64 = if unix_seconds >= 0 {
        unix_seconds % 86_400
    } else {
        86_399 - (-(unix_seconds + 1)) % 86_400
    };
    assert(days == unix_seconds / 86400 && time_of_day == unix_seconds % 86400) by (nonlinear_arith)
        requires
            unix_seconds >= 0 ==> days == unix_seconds / 86_400 && time_of_day == unix_seconds % 86_400,
            unix_seconds < 0 ==> days == -((-(unix_seconds + 1)) / 86_400) - 1 && time_of_day == 86_399 - (-(
            unix_seconds + 1)) % 86_400,
    ;
    assert(unix_seconds % 60 == time_of_day % 60) by (nonlinear_arith)
        requires
            time_of_day == unix_seconds % 86400,
    ;
    assert(-106_751_991_167_301 <= days <= 106_751_991_167_300) by (nonlinear_arith)
        requires
            days == unix_seconds / 86400,
    ;
    let (year, month, day) = civil_from_days(days);
    proof {
        // A year this far from the epoch is still far from the ends of i64.
        if year < -300_000_000_000 || year > 300_000_000_000 {
            assert(days_from_civil(year as int, month as int, day as int) == days);
            assert(false) by (nonlinear_arith)
                requires
                    days_from_civil(year as int, month as int, day as int) == days,
                    -106_751_991_167_301 <= days <= 106_751_991_167_300,
                    year < -300_000_000_000 || year > 300_000_000_000,
                    1 <= month <= 12,
                    1 <= day <= 31,
            ;
        }
    }
    let hour: i64 = time_of_day / 3600;
    let minute: i64 = (time_of_day % 3600) / 60;
    let second: i64 = time_of_day % 60;
    let mut text = zero_padded_of(year, 4);
    text = concat(&text, &one('-'));
    text = concat(&text, &zero_padded_of(month as i64, 2));
    text = concat(&text, &one('-'));
    text = concat(&text, &zero_padded_of(day as i64, 2));
    text = concat(&text, &one(' '));
    text = concat(&text, &zero_padded_of(hour, 2));
    text = concat(&text, &one(':'));
    text = concat(&text, &zero_padded_of(minute, 2));
    text = concat(&text, &one(':'));
    text = concat(&text, &zero_padded_of(second, 2));
    let r = string_of(&text);
    proof {
        assert(r@ == timestamp_text(year as int, month as int, day as int, hour as int, minute as int, second as int));
        assert(valid_date(year as int, month as int, day as int) && days_from_civil(year as int, month as int, day as int)
            == unix_seconds / 86400);
    }
    r
}

} // verus!
