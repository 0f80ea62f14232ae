//! Calendar arithmetic: the Julian Day Number of a proleptic Gregorian date,
//! the date of a day number, and the Maya Long Count.

use vstd::prelude::*;
use crate::arith::{fits_i64, floor_div, floor_mod, lemma_tdiv_nonneg, tdiv};

verus! {

/// `a = floor((14 - month) / 12)`: 1 for January and February, 0 for the
/// other months of the year.
pub open spec fn jdn_a(month: int) -> int {
    (14 - month) / 12
}

/// `y' = year + 4800 - a`: the year counted from March of year -4800.
pub open spec fn jdn_y(year: int, month: int) -> int {
    year + 4800 - jdn_a(month)
}

/// `m' = month + 12a - 3`: the month counted from March (0) to February (11).
pub open spec fn jdn_m(month: int) -> int {
    month + 12 * jdn_a(month) - 3
}

/// The day plus the days before the month in the March-based year:
/// `d + floor((153m' + 2) / 5)`.
pub open spec fn jdn_s1(month: int, day: int) -> int {
    day + (153 * jdn_m(month) + 2) / 5
}

/// `JDN(y, m, d) = d + floor((153m' + 2)/5) + 365y' + floor(y'/4) - floor(y'/100)
/// + floor(y'/400) - 32045`, every division rounding down.
pub open spec fn jdn_spec(year: int, month: int, day: int) -> int {
    let y = jdn_y(year, month);
    jdn_s1(month, day) + 365 * y + y / 4 - y / 100 + y / 400 - 32045
}

/// Every intermediate value of the day-number formula, in the order the code
/// computes them, is a value of `i64`.
pub open spec fn jdn_fits(year: int, month: int, day: int) -> bool {
    let y = jdn_y(year, month);
    let s2 = jdn_s1(month, day) + 365 * y;
    &&& fits_i64(year + 4800)
    &&& fits_i64(y)
    &&& fits_i64(365 * y)
    &&& fits_i64(s2)
    &&& fits_i64(s2 + y / 4)
    &&& fits_i64(s2 + y / 4 - y / 100)
    &&& fits_i64(s2 + y / 4 - y / 100 + y / 400)
    &&& fits_i64(s2 + y / 4 - y / 100 + y / 400 - 32045)
}

/// `m'` lies in `0..12` for every month number, and `a` is at most 1.
pub proof fn lemma_jdn_m_range(month: int)
    ensures
        0 <= jdn_m(month) < 12,
        month >= 0 ==> jdn_a(month) <= 1,
        month >= 0 ==> jdn_a(month) >= -month,
        1 <= month <= 12 ==> jdn_a(month) == (if month <= 2 { 1int } else { 0int }),
{
    vstd::arithmetic::div_mod::lemma_fundamental_div_mod(14 - month, 12);
}

/// The Julian Day Number of a proleptic Gregorian date.
pub fn julian_day_number(year: i64, month: u32, day: u32) -> (j: i64)
    requires
        jdn_fits(year as int, month as int, day as int),
    ensures
        j == jdn_spec(year as int, month as int, day as int),
{
    proof {
        lemma_jdn_m_range(month as int);
    }
    let a = floor_div(14 - month as i64, 12);
    let y = year + 4800 - a;
    let m = month as i64 + 12 * a - 3;
    day as i64 + floor_div(153 * m + 2, 5) + 365 * y + floor_div(y, 4) - floor_div(y, 100)
        + floor_div(y, 400) - 32045
}

/// The date `(year, month, day)` of a day number (the inverse formula), with
/// the divisions rounding as Rust's do.
pub open spec fn gregorian_spec(jdn: int) -> (int, int, int) {
    let a = jdn + 32044;
    let b = tdiv(4 * a + 3, 146097);
    let c = a - tdiv(146097 * b, 4);
    let d = tdiv(4 * c + 3, 1461);
    let e = c - tdiv(1461 * d, 4);
    let m = tdiv(5 * e + 2, 153);
    let day = e - tdiv(153 * m + 2, 5) + 1;
    let month = m + 3 - 12 * tdiv(m, 10);
    let year = 100 * b + d - 4800 + tdiv(m, 10);
    (year, month, day)
}

/// `4 * (jdn + 32044) + 3` is a value of `i64`; the rest of the inverse
/// formula then computes without overflow.
pub open spec fn gregorian_fits(jdn: int) -> bool {
    fits_i64(4 * (jdn + 32044) + 3)
}

pub proof fn lemma_tdiv_bound(x: int, d: int)
    requires
        d > 0,
    ensures
        abs_le(d * tdiv(x, d), x),
        abs_le(tdiv(x, d), x),
        x >= 0 ==> d * tdiv(x, d) <= x < d * tdiv(x, d) + d,
        x < 0 ==> d * tdiv(x, d) - d < x <= d * tdiv(x, d),
{
    if x >= 0 {
        lemma_tdiv_nonneg(x, d);
        vstd::arithmetic::div_mod::lemma_fundamental_div_mod(x, d);
        vstd::arithmetic::div_mod::lemma_div_pos_is_pos(x, d);
        vstd::arithmetic::div_mod::lemma_div_is_ordered_by_denominator(x, 1, d);
    } else {
        lemma_tdiv_nonneg(-x, d);
        vstd::arithmetic::div_mod::lemma_fundamental_div_mod(-x, d);
        vstd::arithmetic::div_mod::lemma_div_pos_is_pos(-x, d);
        vstd::arithmetic::div_mod::lemma_div_is_ordered_by_denominator(-x, 1, d);
        let q = (-x) / d;
        assert(tdiv(x, d) == -q);
        assert(d * tdiv(x, d) == -(d * q)) by (nonlinear_arith)
            requires
                tdiv(x, d) == -q,
        ;
    }
}

/// `|a| <= |b|` with `a` and `b` of the same sign or `a` zero.
pub open spec fn abs_le(a: int, b: int) -> bool {
    if b >= 0 {
        0 <= a <= b
    } else {
        b <= a <= 0
    }
}

/// The proleptic Gregorian date of a Julian Day Number.
pub fn jdn_to_gregorian(jdn: i64) -> (r: (i64, i64, i64))
    requires
        gregorian_fits(jdn as int),
    ensures
        (r.0 as int, r.1 as int, r.2 as int) == gregorian_spec(jdn as int),
{
    let a = jdn + 32044;
    proof {
        lemma_tdiv_bound(4 * a + 3, 146097);
    }
    let b = (4 * a + 3) / 146097;
    proof {
        lemma_tdiv_bound(146097 * b, 4);
    }
    let c = a - (146097 * b) / 4;
    assert(-36525 <= c <= 36525);
    proof {
        lemma_tdiv_bound(4 * c + 3, 1461);
    }
    let d = (4 * c + 3) / 1461;
    proof {
        lemma_tdiv_bound(1461 * d, 4);
    }
    let e = c - (1461 * d) / 4;
    proof {
        lemma_tdiv_bound(5 * e + 2, 153);
    }
    let m = (5 * e + 2) / 153;
    proof {
        lemma_tdiv_bound(153 * m + 2, 5);
        lemma_tdiv_bound(m as int, 10);
    }
    let day = e - (153 * m + 2) / 5 + 1;
    let month = m + 3 - 12 * (m / 10);
    let year = 100 * b + d - 4800 + (m / 10);
    (year, month, day)
}

/// The Maya Long Count `(baktun, katun, tun, uinal, kin)` of the day number,
/// counted from day number 584283: `days = jdn - 584283`,
/// `baktun = floor(days / 144000)`, `katun = floor((days mod 144000) / 7200)`,
/// `tun = floor((days mod 7200) / 360)`, `uinal = floor((days mod 360) / 20)`,
/// `kin = days mod 20`, every remainder in `0..divisor`.
pub open spec fn maya_spec(jdn: int) -> Seq<int> {
    let days = jdn - 584283;
    seq![days / 144000, (days % 144000) / 7200, (days % 7200) / 360, (days % 360) / 20, days % 20]
}

/// The Maya Long Count of a day number.
pub fn maya_long_count(jdn: i64) -> (r: [i64; 5])
    requires
        fits_i64(jdn - 584283),
    ensures
        r@.map_values(|x: i64| x as int) == maya_spec(jdn as int),
{
    let days = jdn - 584283;
    let baktun = floor_div(days, 144000);
    let r = floor_mod(days, 144000);
    proof {
        vstd::arithmetic::div_mod::lemma_mod_mod(days as int, 7200, 20);
        vstd::arithmetic::div_mod::lemma_mod_mod(days as int, 360, 20);
        vstd::arithmetic::div_mod::lemma_mod_mod(days as int, 20, 18);
    }
    let (katun, r) = (r / 7200, r % 7200);
    let (tun, r) = (r / 360, r % 360);
    let (uinal, kin) = (r / 20, r % 20);
    let out = [baktun, katun, tun, uinal, kin];
    assert(out@.map_values(|x: i64| x as int) =~= maya_spec(jdn as int));
    out
}

/// The Long Count is the day count in mixed radix: `days = 144000 baktun +
/// 7200 katun + 360 tun + 20 uinal + kin` with `katun`, `tun`, `kin` in
/// `0..20` and `uinal` in `0..18`, before the epoch too.
pub proof fn lemma_maya_digits(jdn: int)
    ensures
        ({
            let c = maya_spec(jdn);
            &&& 144000 * c[0] + 7200 * c[1] + 360 * c[2] + 20 * c[3] + c[4] == jdn - 584283
            &&& 0 <= c[1] < 20
            &&& 0 <= c[2] < 20
            &&& 0 <= c[3] < 18
            &&& 0 <= c[4] < 20
        }),
{
    let days = jdn - 584283;
    vstd::arithmetic::div_mod::lemma_fundamental_div_mod(days, 144000);
    vstd::arithmetic::div_mod::lemma_fundamental_div_mod(days % 144000, 7200);
    vstd::arithmetic::div_mod::lemma_fundamental_div_mod(days % 7200, 360);
    vstd::arithmetic::div_mod::lemma_fundamental_div_mod(days % 360, 20);
    vstd::arithmetic::div_mod::lemma_mod_mod(days, 7200, 20);
    vstd::arithmetic::div_mod::lemma_mod_mod(days, 360, 20);
    vstd::arithmetic::div_mod::lemma_mod_mod(days, 20, 18);
    vstd::arithmetic::div_mod::lemma_div_is_ordered(days % 144000, 143999, 7200);
    vstd::arithmetic::div_mod::lemma_div_is_ordered(days % 7200, 7199, 360);
    vstd::arithmetic::div_mod::lemma_div_is_ordered(days % 360, 359, 20);
    vstd::arithmetic::div_mod::lemma_div_pos_is_pos(days % 144000, 7200);
    vstd::arithmetic::div_mod::lemma_div_pos_is_pos(days % 7200, 360);
    vstd::arithmetic::div_mod::lemma_div_pos_is_pos(days % 360, 20);
}

/// Leap years of the proleptic Gregorian calendar.
pub open spec fn is_leap_year(year: int) -> bool {
    (year % 4 == 0 && year % 100 != 0) || year % 400 == 0
}

/// The number of days of a month of the proleptic Gregorian calendar.
pub open spec fn days_in_month(year: int, month: int) -> int {
    if month == 2 {
        if is_leap_year(year) {
            29
        } else {
            28
        }
    } else if month == 4 || month == 6 || month == 9 || month == 11 {
        30
    } else {
        31
    }
}

/// A date of the proleptic Gregorian calendar.
pub open spec fn valid_date(year: int, month: int, day: int) -> bool {
    1 <= month <= 12 && 1 <= day <= days_in_month(year, month)
}

/// Month lengths of the March-based year, February (11) last and at most 29.
spec fn march_month_len(mp: int) -> int {
    if mp == 1 || mp == 3 || mp == 6 || mp == 8 {
        30
    } else if mp == 11 {
        29
    } else {
        31
    }
}

proof fn lemma_month_table(mp: int, dd: int)
    requires
        0 <= mp <= 11,
        0 <= dd < march_month_len(mp),
    ensures
        (5 * ((153 * mp + 2) / 5 + dd) + 2) / 153 == mp,
        (153 * mp + 2) / 5 + dd <= 365,
{
    if mp == 0 {
        assert((153 * mp + 2) / 5 == 0);
    } else if mp == 1 {
        assert((153 * mp + 2) / 5 == 31);
    } else if mp == 2 {
        assert((153 * mp + 2) / 5 == 61);
    } else if mp == 3 {
        assert((153 * mp + 2) / 5 == 92);
    } else if mp == 4 {
        assert((153 * mp + 2) / 5 == 122);
    } else if mp == 5 {
        assert((153 * mp + 2) / 5 == 153);
    } else if mp == 6 {
        assert((153 * mp + 2) / 5 == 184);
    } else if mp == 7 {
        assert((153 * mp + 2) / 5 == 214);
    } else if mp == 8 {
        assert((153 * mp + 2) / 5 == 245);
    } else if mp == 9 {
        assert((153 * mp + 2) / 5 == 275);
    } else if mp == 10 {
        assert((153 * mp + 2) / 5 == 306);
    } else {
        assert((153 * mp + 2) / 5 == 337);
    }
}

/// The inverse formula gives back the date: `gregorian(JDN(y, m, d)) = (y, m, d)`
/// for every valid date from year -4799 on.
pub proof fn lemma_gregorian_jdn(year: int, month: int, day: int)
    requires
        valid_date(year, month, day),
        year >= -4799,
    ensures
        gregorian_spec(jdn_spec(year, month, day)) == (year, month, day),
        jdn_spec(year, month, day) + 32044 >= 0,
{
    let a = jdn_a(month);
    lemma_jdn_m_range(month);
    assert(a == if month <= 2 { 1int } else { 0int });
    let yp = year + 4800 - a;
    let mp = month + 12 * a - 3;
    assert(0 <= mp <= 11);
    let cm = (153 * mp + 2) / 5;
    let dd = day - 1;
    assert(0 <= dd < march_month_len(mp));
    lemma_month_table(mp, dd);
    let dy = cm + dd;
    assert(0 <= dy <= 365);
    let bb = yp / 100;
    let yy = yp % 100;
    assert(yp == 100 * bb + yy);
    assert(0 <= yy < 100);
    assert(bb >= 0);
    assert(yp / 4 == 25 * bb + yy / 4);
    vstd::arithmetic::div_mod::lemma_div_denominator(yp, 100, 4);
    assert(yp / 400 == bb / 4);
    let jdn = jdn_spec(year, month, day);
    assert(jdn == day + cm + 365 * yp + yp / 4 - yp / 100 + yp / 400 - 32045);
    let big_a = jdn + 32044;
    let t = 365 * yy + yy / 4 + dy;
    assert(big_a == 36524 * bb + bb / 4 + t);
    assert(big_a >= 0);
    // Feb 29 only in leap years; in the March-based count that is the day before
    // March 1 of year yp + 1.
    assert(dy == 365 ==> yy % 4 == 3 && (yy == 99 ==> bb % 4 == 3)) by {
        if dy == 365 {
            assert(mp == 11 && dd == 28);
            assert(month == 2 && day == 29);
            assert(is_leap_year(year));
            assert(year == yp - 4799);
        }
    }
    // b: the century
    let r1 = 4 * t + 3 - bb % 4;
    assert(4 * (bb / 4) == bb - bb % 4);
    assert(4 * big_a + 3 == bb * 146097 + r1);
    assert(0 <= r1 < 146097);
    vstd::arithmetic::div_mod::lemma_fundamental_div_mod_converse(4 * big_a + 3, 146097, bb, r1);
    lemma_tdiv_nonneg(4 * big_a + 3, 146097);
    let b = tdiv(4 * big_a + 3, 146097);
    assert(b == bb);
    lemma_tdiv_nonneg(146097 * b, 4);
    assert(146097 * b / 4 == 36524 * bb + bb / 4);
    let c = big_a - tdiv(146097 * b, 4);
    assert(c == t);
    // d: the year in the century
    let r2 = 4 * dy + 3 - yy % 4;
    assert(4 * (yy / 4) == yy - yy % 4);
    assert(4 * c + 3 == yy * 1461 + r2);
    assert(0 <= r2 < 1461);
    vstd::arithmetic::div_mod::lemma_fundamental_div_mod_converse(4 * c + 3, 1461, yy, r2);
    lemma_tdiv_nonneg(4 * c + 3, 1461);
    let d = tdiv(4 * c + 3, 1461);
    assert(d == yy);
    lemma_tdiv_nonneg(1461 * d, 4);
    assert(1461 * d / 4 == 365 * yy + yy / 4);
    let e = c - tdiv(1461 * d, 4);
    assert(e == dy);
    lemma_tdiv_nonneg(5 * e + 2, 153);
    let m = tdiv(5 * e + 2, 153);
    assert(m == mp);
    lemma_tdiv_nonneg(153 * m + 2, 5);
    lemma_tdiv_nonneg(m, 10);
    assert(tdiv(m, 10) == a);
}

/// The calendar day after a date: the next day of the month, else the first
/// of the next month, else the first of January of the next year.
pub open spec fn next_date(year: int, month: int, day: int) -> (int, int, int) {
    if day < days_in_month(year, month) {
        (year, month, day + 1)
    } else if month < 12 {
        (year, month + 1, 1)
    } else {
        (year + 1, 1, 1)
    }
}

/// Stepping `x` down by one lowers `floor(x / k)` exactly when `k` divides `x`.
proof fn lemma_div_step(x: int, k: int)
    requires
        k > 0,
    ensures
        x / k - (x - 1) / k == (if x % k == 0 { 1int } else { 0int }),
{
    vstd::arithmetic::div_mod::lemma_fundamental_div_mod(x, k);
    let q = x / k;
    let r = x % k;
    if r == 0 {
        assert(x - 1 == (q - 1) * k + (k - 1)) by (nonlinear_arith)
            requires
                x == k * q + r,
                r == 0,
        ;
        vstd::arithmetic::div_mod::lemma_fundamental_div_mod_converse(x - 1, k, q - 1, k - 1);
    } else {
        assert(x - 1 == q * k + (r - 1)) by (nonlinear_arith)
            requires
                x == k * q + r,
        ;
        vstd::arithmetic::div_mod::lemma_fundamental_div_mod_converse(x - 1, k, q, r - 1);
    }
}

/// In the March-based year, a month starts where the one before it ends.
proof fn lemma_cm_step(mp: int)
    requires
        0 <= mp < 11,
    ensures
        (153 * (mp + 1) + 2) / 5 == (153 * mp + 2) / 5 + march_month_len(mp),
{
    if mp == 0 {
        assert((153 * 1 + 2) / 5 == 31);
    } else if mp == 1 {
        assert((153 * 1 + 2) / 5 == 31 && (153 * 2 + 2) / 5 == 61);
    } else if mp == 2 {
        assert((153 * 2 + 2) / 5 == 61 && (153 * 3 + 2) / 5 == 92);
    } else if mp == 3 {
        assert((153 * 3 + 2) / 5 == 92 && (153 * 4 + 2) / 5 == 122);
    } else if mp == 4 {
        assert((153 * 4 + 2) / 5 == 122 && (153 * 5 + 2) / 5 == 153);
    } else if mp == 5 {
        assert((153 * 5 + 2) / 5 == 153 && (153 * 6 + 2) / 5 == 184);
    } else if mp == 6 {
        assert((153 * 6 + 2) / 5 == 184 && (153 * 7 + 2) / 5 == 214);
    } else if mp == 7 {
        assert((153 * 7 + 2) / 5 == 214 && (153 * 8 + 2) / 5 == 245);
    } else if mp == 8 {
        assert((153 * 8 + 2) / 5 == 245 && (153 * 9 + 2) / 5 == 275);
    } else if mp == 9 {
        assert((153 * 9 + 2) / 5 == 275 && (153 * 10 + 2) / 5 == 306);
    } else {
        assert((153 * 10 + 2) / 5 == 306 && (153 * 11 + 2) / 5 == 337);
    }
}

/// The last of February and the first of March are consecutive days: the
/// leap day, where there is one, is what the day-number formula adds.
proof fn lemma_feb_to_march(year: int)
    ensures
        jdn_spec(year, 3, 1) == jdn_spec(year, 2, days_in_month(year, 2)) + 1,
{
    lemma_jdn_m_range(2);
    lemma_jdn_m_range(3);
    let yy = year + 4800;
    lemma_div_step(yy, 4);
    lemma_div_step(yy, 100);
    lemma_div_step(yy, 400);
    vstd::arithmetic::div_mod::lemma_mod_multiples_vanish(1200, year, 4);
    vstd::arithmetic::div_mod::lemma_mod_multiples_vanish(48, year, 100);
    vstd::arithmetic::div_mod::lemma_mod_multiples_vanish(12, year, 400);
    assert(yy % 4 == year % 4 && yy % 100 == year % 100 && yy % 400 == year % 400);
    assert((153 * 11 + 2) / 5 == 337);
    assert((153 * 0 + 2) / 5 == 0);
    assert(jdn_y(year, 2) == yy - 1);
    assert(jdn_y(year, 3) == yy);
}

/// Consecutive days have consecutive day numbers: the day after a valid date
/// is a valid date, and its Julian Day Number is one more, in every year.
#[verifier::spinoff_prover]
pub proof fn lemma_jdn_next_day(year: int, month: int, day: int)
    requires
        valid_date(year, month, day),
    ensures
        valid_date(next_date(year, month, day).0, next_date(year, month, day).1, next_date(year, month, day).2),
        jdn_spec(next_date(year, month, day).0, next_date(year, month, day).1, next_date(year, month, day).2)
            == jdn_spec(year, month, day) + 1,
{
    lemma_jdn_m_range(month);
    let n = next_date(year, month, day);
    lemma_jdn_m_range(n.1);
    let mp = jdn_m(month);
    if day < days_in_month(year, month) {
    } else if month < 12 {
        if month == 2 {
            lemma_feb_to_march(year);
        } else {
            lemma_cm_step(mp);
            assert(days_in_month(year, month) == march_month_len(mp));
        }
    } else {
        assert((153 * 9 + 2) / 5 == 275);
        assert((153 * 10 + 2) / 5 == 306);
    }
}

/// The date of a day number with `0 <= jdn + 32044 <= 2^48` has a month in `1..=12`, a
/// day in `1..=31`, and a year from -4800 to `2^48`.
pub proof fn lemma_gregorian_range(jdn: int)
    requires
        0 <= jdn + 32044 <= 0x1_0000_0000_0000,
    ensures
        1 <= gregorian_spec(jdn).1 <= 12,
        1 <= gregorian_spec(jdn).2 <= 31,
        -4800 <= gregorian_spec(jdn).0 <= 0x1_0000_0000_0000,
{
    let a = jdn + 32044;
    lemma_tdiv_nonneg(4 * a + 3, 146097);
    let b = tdiv(4 * a + 3, 146097);
    assert(b >= 0);
    lemma_tdiv_nonneg(146097 * b, 4);
    let c = a - tdiv(146097 * b, 4);
    assert(0 <= c <= 36524);
    lemma_tdiv_nonneg(4 * c + 3, 1461);
    let d = tdiv(4 * c + 3, 1461);
    assert(0 <= d <= 99);
    lemma_tdiv_nonneg(1461 * d, 4);
    let e = c - tdiv(1461 * d, 4);
    assert(0 <= e <= 365);
    lemma_tdiv_nonneg(5 * e + 2, 153);
    let m = tdiv(5 * e + 2, 153);
    assert(0 <= m <= 11);
    lemma_tdiv_nonneg(153 * m + 2, 5);
    lemma_tdiv_nonneg(m, 10);
    lemma_month_table(m, e - (153 * m + 2) / 5);
}

/// Rust's division by a nonzero divisor does not grow the magnitude.
pub proof fn lemma_tdiv_shrinks(x: int, w: int)
    requires
        w != 0,
    ensures
        crate::arith::abs(tdiv(x, w)) <= crate::arith::abs(x),
{
    let d = if w > 0 { w } else { -w };
    let y = if x >= 0 { x } else { -x };
    lemma_tdiv_nonneg(y, d);
    vstd::arithmetic::div_mod::lemma_div_is_ordered_by_denominator(y, 1, d);
    vstd::arithmetic::div_mod::lemma_div_pos_is_pos(y, d);
}
} // verus!
