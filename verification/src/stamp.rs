//! Backup-file timestamps: `YYYYMMDD-HHMMSS` (UTC) from seconds since the
//! Unix epoch, by the civil-from-days conversion.

use vstd::prelude::*;
use crate::bmp::{decimal_digits, digits, lemma_digits_bounds};
use vstd::string::StringExecFns;

verus! {

/// Civil date `(year, month, day)` of day `days` after 1970-01-01 (UTC),
/// by Howard Hinnant's era / day-of-era decomposition (400-year eras of
/// 146097 days, years starting in March). [`lemma_civil_date`] shows it is
/// the Gregorian calendar date ([`is_date_of`]) that many days after the
/// epoch.
pub open spec fn civil_from_days(days: nat) -> (nat, nat, nat) {
    let z = days + 719_468;
    let era = z / 146_097;
    let doe = z % 146_097;
    let yoe = (doe - doe / 1460 + doe / 36_524 - doe / 146_096) / 365;
    let y = yoe + era * 400;
    let doy = doe - (365 * yoe + yoe / 4 - yoe / 100);
    let mp = (5 * doy + 2) / 153;
    let d = doy - (153 * mp + 2) / 5 + 1;
    let m = if mp < 10 {
        mp + 3
    } else {
        mp - 9
    };
    ((if m <= 2 {
        y + 1
    } else {
        y
    }) as nat, m as nat, d as nat)
}

/// The character of decimal digit `d`.
pub open spec fn digit_char(d: u8) -> char {
    ((d as int) + 48) as char
}

/// `v` in decimal, left-padded with zeros to at least `w` characters.
pub open spec fn padded(v: nat, w: nat) -> Seq<char> {
    let ds = digits(v).map_values(|d: u8| digit_char(d));
    Seq::new((if ds.len() < w { w - ds.len() } else { 0 }) as nat, |i: int| '0') + ds
}

fn digit_str(d: u8) -> (s: &'static str)
    requires
        d < 10,
    ensures
        s@ == seq![digit_char(d)],
{
    proof {
        reveal_strlit("0");
        reveal_strlit("1");
        reveal_strlit("2");
        reveal_strlit("3");
        reveal_strlit("4");
        reveal_strlit("5");
        reveal_strlit("6");
        reveal_strlit("7");
        reveal_strlit("8");
        reveal_strlit("9");
    }
    if d == 0 {
        "0"
    } else if d == 1 {
        "1"
    } else if d == 2 {
        "2"
    } else if d == 3 {
        "3"
    } else if d == 4 {
        "4"
    } else if d == 5 {
        "5"
    } else if d == 6 {
        "6"
    } else if d == 7 {
        "7"
    } else if d == 8 {
        "8"
    } else {
        "9"
    }
}

/// The backup-name timestamp of `secs` seconds after the epoch:
/// `YYYYMMDD-HHMMSS`, each field zero-padded (the year to at least 4 digits).
pub open spec fn stamp_of(secs: nat) -> Seq<char> {
    let days = secs / 86_400;
    let sod = secs % 86_400;
    let ymd = civil_from_days(days);
    padded(ymd.0, 4) + padded(ymd.1, 2) + padded(ymd.2, 2) + seq!['-'] + padded(sod / 3600, 2)
        + padded((sod % 3600) / 60, 2) + padded(sod % 60, 2)
}

/// Within a 400-year era, the day of the (March-based) year lies in
/// `0..=365`.
proof fn lemma_day_of_year(doe: u32)
    by (bit_vector)
    requires
        doe < 146097,
    ensures
        doe / 146096 <= doe - doe / 1460 + doe / 36524,
        (doe - doe / 1460 + doe / 36524 - doe / 146096) / 365 <= 400,
        365 * ((doe - doe / 1460 + doe / 36524 - doe / 146096) / 365) + ((doe - doe / 1460 + doe
            / 36524 - doe / 146096) / 365) / 4 - ((doe - doe / 1460 + doe / 36524 - doe / 146096)
            / 365) / 100 <= doe,
        doe - (365 * ((doe - doe / 1460 + doe / 36524 - doe / 146096) / 365) + ((doe - doe / 1460
            + doe / 36524 - doe / 146096) / 365) / 4 - ((doe - doe / 1460 + doe / 36524 - doe
            / 146096) / 365) / 100) <= 365,
{
}

/// From a day of the year in `0..=365`: the month index is at most 11 and
/// the day of the month lies in `1..=31`.
proof fn lemma_month_day(doy: u32)
    by (bit_vector)
    requires
        doy <= 365,
    ensures
        (5 * doy + 2) / 153 <= 11,
        (153 * ((5 * doy + 2) / 153) + 2) / 5 <= doy,
        doy - (153 * ((5 * doy + 2) / 153) + 2) / 5 <= 30,
{
}

/// Every timestamp's month lies in `1..=12` and its day in `1..=31`.
pub proof fn lemma_civil_ranges(days: nat)
    ensures
        1 <= civil_from_days(days).1 <= 12,
        1 <= civil_from_days(days).2 <= 31,
{
    let z = days + 719_468;
    let doe = z % 146_097;
    lemma_day_of_year(doe as u32);
    let yoe = (doe - doe / 1460 + doe / 36_524 - doe / 146_096) / 365;
    let doy = doe - (365 * yoe + yoe / 4 - yoe / 100);
    lemma_month_day(doy as u32);
}

/// Gregorian leap year.
pub open spec fn is_leap(y: int) -> bool {
    y % 4 == 0 && (y % 100 != 0 || y % 400 == 0)
}

/// Days in month `m` (1 = January) of year `y`.
pub open spec fn month_len(y: int, m: int) -> int {
    if m == 2 {
        if is_leap(y) {
            29
        } else {
            28
        }
    } else if m == 4 || m == 6 || m == 9 || m == 11 {
        30
    } else {
        31
    }
}

/// Days of year `y` before the first of month `m`.
pub open spec fn days_before_month(y: int, m: int) -> int
    decreases m,
{
    if m <= 1 {
        0
    } else {
        days_before_month(y, m - 1) + month_len(y, m - 1)
    }
}

/// Number of leap years in `[0, y)` for `y >= 0`: the multiples of 4, less
/// the multiples of 100, plus the multiples of 400.
pub open spec fn leaps_before(y: int) -> int {
    (y + 3) / 4 - (y + 99) / 100 + (y + 399) / 400
}

/// Days from 1970-01-01 to January 1 of year `y`.
pub open spec fn days_before_year(y: int) -> int {
    365 * (y - 1970) + leaps_before(y) - leaps_before(1970)
}

/// `(y, m, d)` is a valid date lying `days` days after 1970-01-01.
pub open spec fn is_date_of(days: int, ymd: (nat, nat, nat)) -> bool {
    &&& 1 <= ymd.1 <= 12
    &&& 1 <= ymd.2 <= month_len(ymd.0 as int, ymd.1 as int)
    &&& days_before_year(ymd.0 as int) + days_before_month(ymd.0 as int, ymd.1 as int) + ymd.2 - 1
        == days
}

/// In a 400-year era, the (March-based) year `yoe` has a 366th day only
/// when the Gregorian year `yoe + 1` is a leap year.
proof fn lemma_day_366(doe: u32)
    by (bit_vector)
    requires
        doe < 146097,
    ensures
        ({
            let yoe = (doe - doe / 1460 + doe / 36524 - doe / 146096) / 365;
            let doy = doe - (365 * yoe + yoe / 4 - yoe / 100);
            doy == 365 ==> (yoe + 1) % 4 == 0 && ((yoe + 1) % 100 != 0 || (yoe + 1) % 400 == 0)
        }),
{
}

/// Month index `mp` (0 = March) of day `doy` of a March-based year: the day
/// lies within that month.
proof fn lemma_march_month(doy: u32)
    by (bit_vector)
    requires
        doy <= 365,
    ensures
        ({
            let mp = (5 * doy + 2) / 153;
            let st = (153 * mp + 2) / 5;
            &&& st <= doy
            &&& mp <= 11
            &&& mp == 0 ==> st == 0 && doy < 31
            &&& mp == 1 ==> st == 31 && doy < 61
            &&& mp == 2 ==> st == 61 && doy < 92
            &&& mp == 3 ==> st == 92 && doy < 122
            &&& mp == 4 ==> st == 122 && doy < 153
            &&& mp == 5 ==> st == 153 && doy < 184
            &&& mp == 6 ==> st == 184 && doy < 214
            &&& mp == 7 ==> st == 214 && doy < 245
            &&& mp == 8 ==> st == 245 && doy < 275
            &&& mp == 9 ==> st == 275 && doy < 306
            &&& mp == 10 ==> st == 306 && doy < 337
            &&& mp == 11 ==> st == 337
        }),
{
}

proof fn lemma_days_before_month(y: int)
    ensures
        days_before_month(y, 1) == 0,
        days_before_month(y, 2) == 31,
        days_before_month(y, 3) == 59 + if is_leap(y) { 1int } else { 0int },
        days_before_month(y, 4) == 90 + if is_leap(y) { 1int } else { 0int },
        days_before_month(y, 5) == 120 + if is_leap(y) { 1int } else { 0int },
        days_before_month(y, 6) == 151 + if is_leap(y) { 1int } else { 0int },
        days_before_month(y, 7) == 181 + if is_leap(y) { 1int } else { 0int },
        days_before_month(y, 8) == 212 + if is_leap(y) { 1int } else { 0int },
        days_before_month(y, 9) == 243 + if is_leap(y) { 1int } else { 0int },
        days_before_month(y, 10) == 273 + if is_leap(y) { 1int } else { 0int },
        days_before_month(y, 11) == 304 + if is_leap(y) { 1int } else { 0int },
        days_before_month(y, 12) == 334 + if is_leap(y) { 1int } else { 0int },
{
    reveal_with_fuel(days_before_month, 13);
}

/// `(q * d + x) / d == q + x / d` and the remainder is `x`'s.
proof fn lemma_div_shift(q: int, x: int, d: int)
    requires
        d > 0,
        x >= 0,
    ensures
        (q * d + x) / d == q + x / d,
        (q * d + x) % d == x % d,
{
    vstd::arithmetic::div_mod::lemma_fundamental_div_mod(x, d);
    assert(q * d + x == (q + x / d) * d + x % d) by (nonlinear_arith)
        requires
            x == d * (x / d) + x % d,
    ;
    vstd::arithmetic::div_mod::lemma_fundamental_div_mod_converse(q * d + x, d, q + x / d, x % d);
}

/// Whole 400-year eras add 97 leap years and keep leapness.
proof fn lemma_era_shift(e: int, y: int)
    requires
        e >= 0,
        y >= 0,
    ensures
        leaps_before(400 * e + y) == 97 * e + leaps_before(y),
        is_leap(400 * e + y) == is_leap(y),
{
    lemma_div_shift(100 * e, y + 3, 4);
    lemma_div_shift(4 * e, y + 99, 100);
    lemma_div_shift(e, y + 399, 400);
    lemma_div_shift(100 * e, y, 4);
    lemma_div_shift(4 * e, y, 100);
    lemma_div_shift(e, y, 400);
    assert(100 * e * 4 == 400 * e);
    assert(4 * e * 100 == 400 * e);
    assert(e * 400 == 400 * e);
}

/// Within an era, the leap years in `[0, yoe]` number `yoe/4 - yoe/100 + 1`.
proof fn lemma_leaps_in_era(yoe: int)
    requires
        0 <= yoe < 400,
    ensures
        leaps_before(yoe + 1) == yoe / 4 - yoe / 100 + 1,
{
    lemma_div_shift(1, yoe, 4);
    lemma_div_shift(1, yoe, 100);
    assert((yoe + 400) / 400 == 1);
}

/// Leap years in `[0, yoe]` within an era, counted from `[0, yoe)`.
proof fn lemma_leap_step(yoe: u32)
    by (bit_vector)
    requires
        yoe < 400,
    ensures
        (yoe + 3) / 4 - (yoe + 99) / 100 + (yoe + 399) / 400 + (if yoe % 4 == 0 && (yoe % 100 != 0
            || yoe % 400 == 0) {
            1u32
        } else {
            0u32
        }) == yoe / 4 - yoe / 100 + 1,
{
}

/// Within one 400-year era starting on a March 1: day `doe` of the era is
/// day `d` of month `m` of year `y0` of the era, counted by the calendar
/// (60 days run from year 0's January 1 to its March 1).
proof fn lemma_in_era(doe: int)
    requires
        0 <= doe < 146_097,
    ensures
        ({
            let yoe = (doe - doe / 1460 + doe / 36_524 - doe / 146_096) / 365;
            let doy = doe - (365 * yoe + yoe / 4 - yoe / 100);
            let mp = (5 * doy + 2) / 153;
            let d = doy - (153 * mp + 2) / 5 + 1;
            let m = if mp < 10 { mp + 3 } else { mp - 9 };
            let y0 = if m <= 2 { yoe + 1 } else { yoe };
            &&& 0 <= yoe < 400
            &&& 1 <= m <= 12
            &&& 1 <= d <= month_len(y0, m)
            &&& 365 * y0 + leaps_before(y0) + days_before_month(y0, m) + d - 1 == doe + 60
        }),
{
    lemma_day_of_year(doe as u32);
    lemma_day_366(doe as u32);
    let yoe = (doe - doe / 1460 + doe / 36_524 - doe / 146_096) / 365;
    let doy = doe - (365 * yoe + yoe / 4 - yoe / 100);
    lemma_march_month(doy as u32);
    lemma_leap_step(yoe as u32);
    let mp = (5 * doy + 2) / 153;
    let m = if mp < 10 { mp + 3 } else { mp - 9 };
    let y0 = if m <= 2 { yoe + 1 } else { yoe };
    lemma_days_before_month(y0);
    lemma_leaps_in_era(yoe);
}

/// The civil date of every day count is the calendar date that many days
/// after 1970-01-01: a valid month and day, counted by the Gregorian
/// calendar.
pub proof fn lemma_civil_date(days: nat)
    ensures
        is_date_of(days as int, civil_from_days(days)),
{
    let z = days + 719_468;
    let era = z / 146_097;
    let doe = z % 146_097;
    lemma_in_era(doe as int);
    let yoe = (doe - doe / 1460 + doe / 36_524 - doe / 146_096) / 365;
    let doy = doe - (365 * yoe + yoe / 4 - yoe / 100);
    let mp = (5 * doy + 2) / 153;
    let m = if mp < 10 { mp + 3 } else { mp - 9 };
    let y0 = if m <= 2 { yoe + 1 } else { yoe };
    let y = y0 + era * 400;
    lemma_era_shift(era as int, y0 as int);
    lemma_days_before_month(y as int);
    lemma_days_before_month(y0 as int);
    vstd::arithmetic::div_mod::lemma_fundamental_div_mod(z as int, 146_097);
    assert(leaps_before(1970) == 478);
    assert(400 * era + y0 == y);
    assert(days_before_month(y as int, m as int) == days_before_month(y0 as int, m as int));
}

/// Append `v` in decimal, zero-padded to at least `w` characters.
fn push_padded(s: &mut String, v: u64, w: u64)
    ensures
        final(s)@ == old(s)@ + padded(v as nat, w as nat),
{
    let ds = decimal_digits(v);
    proof {
        lemma_digits_bounds(v as nat);
    }
    let ghost start = s@;
    let nd = ds.len() as u64;
    let zeros: u64 = if nd < w {
        w - nd
    } else {
        0
    };
    proof {
        reveal_strlit("0");
    }
    let mut k: u64 = 0;
    while k < zeros
        invariant
            k <= zeros,
            s@ == start + Seq::new(k as nat, |i: int| '0'),
        decreases zeros - k,
    {
        proof {
            reveal_strlit("0");
        }
        s.append("0");
        k = k + 1;
        assert(s@ =~= start + Seq::new(k as nat, |i: int| '0'));
    }
    let ghost mid = s@;
    let ghost chars = digits(v as nat).map_values(|d: u8| digit_char(d));
    let mut j: usize = 0;
    while j < ds.len()
        invariant
            j <= ds@.len(),
            ds@ == digits(v as nat),
            forall|t: int| 0 <= t < ds@.len() ==> #[trigger] ds@[t] < 10,
            chars == ds@.map_values(|d: u8| digit_char(d)),
            s@ == mid + chars.subrange(0, j as int),
        decreases ds@.len() - j,
    {
        s.append(digit_str(ds[j]));
        j = j + 1;
        assert(s@ =~= mid + chars.subrange(0, j as int));
    }
    assert(chars.subrange(0, ds@.len() as int) =~= chars);
    assert(s@ =~= start + padded(v as nat, w as nat));
}

/// `YYYYMMDD-HHMMSS` timestamp (UTC) for `secs` seconds after the epoch;
/// `00000000-000000` when the clock is unavailable (`None`).
pub fn timestamp(secs: Option<u64>) -> (r: String)
    ensures
        r@ == match secs {
            Some(t) => stamp_of(t as nat),
            None => "00000000-000000"@,
        },
{
    let secs = match secs {
        Some(t) => t,
        None => return String::from_str("00000000-000000"),
    };
    let days = secs / 86_400;
    let sod = secs % 86_400;
    let (hh, mm, ss) = (sod / 3600, (sod % 3600) / 60, sod % 60);
    let z = days + 719_468;
    let era = z / 146_097;
    let doe = z % 146_097;
    proof {
        lemma_day_of_year(doe as u32);
    }
    let yoe = (doe - doe / 1460 + doe / 36_524 - doe / 146_096) / 365;
    let y = yoe + era * 400;
    let doy = doe - (365 * yoe + yoe / 4 - yoe / 100);
    proof {
        lemma_month_day(doy as u32);
    }
    let mp = (5 * doy + 2) / 153;
    let d = doy - (153 * mp + 2) / 5 + 1;
    let m = if mp < 10 {
        mp + 3
    } else {
        mp - 9
    };
    let y = if m <= 2 {
        y + 1
    } else {
        y
    };
    let mut out = String::new();
    push_padded(&mut out, y, 4);
    push_padded(&mut out, m, 2);
    push_padded(&mut out, d, 2);
    proof {
        reveal_strlit("-");
    }
    out.append("-");
    push_padded(&mut out, hh, 2);
    push_padded(&mut out, mm, 2);
    push_padded(&mut out, ss, 2);
    assert(out@ =~= stamp_of(secs as nat));
    out
}

} // verus!
