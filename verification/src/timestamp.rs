//! The timestamp and its lossless capture `Phi` as 24 values: the time of
//! day in base-24 digits, month, day and year residues, the seven decimal
//! digits of the Julian Day Number, and the Maya Long Count mod 24. Every
//! residue `rho(x) = x mod 24` lies in `Z_24`.

use vstd::prelude::*;
use chrono::{Datelike, Timelike};
use crate::arith::{fits_i64, floor_div, floor_mod, tdiv};
use crate::calendar::{
    gregorian_fits, gregorian_spec, jdn_fits, jdn_spec, jdn_to_gregorian, jdn_y,
    julian_day_number, lemma_gregorian_jdn, lemma_gregorian_range, maya_long_count, maya_spec,
    valid_date,
};
use crate::feistel::ints;
use crate::text::{
    ascii_bytes, decimal_value, is_digit_byte, lemma_padded_digits, padded_decimal, pow10, push_char,
    push_padded,
};

verus! {

/// A timestamp with all its lossless components, down to the millisecond.
/// Times are taken in UTC; only differences between timestamps matter.
#[derive(Debug, Clone)]
pub struct Timestamp {
    pub year: i64,
    pub month: u32,
    pub day: u32,
    pub hour: u32,
    pub minute: u32,
    pub second: u32,
    pub millis: u32,
}

/// chrono's `ParseError`, carried through as it is.
#[verifier::external_type_specification]
#[verifier::external_body]
pub struct ExParseError(chrono::format::ParseError);

/// The fields `(year, month, day, hour, minute, second, millis)` of a timestamp.
pub open spec fn timestamp_fields(t: Timestamp) -> (int, int, int, int, int, int, int) {
    (
        t.year as int,
        t.month as int,
        t.day as int,
        t.hour as int,
        t.minute as int,
        t.second as int,
        t.millis as int,
    )
}

/// What chrono's `NaiveDateTime::parse_from_str(s, "%Y-%m-%dT%H:%M:%S%.f")`
/// gives for the text `s`, read as the fields of a timestamp (milliseconds
/// from the sub-second nanoseconds), or none where it refuses the text.
pub uninterp spec fn chrono_iso_parse(s: Seq<char>) -> Option<(int, int, int, int, int, int, int)>;

/// Reads an ISO timestamp `2026-08-31T14:07:23.456`. Trusted: calls chrono's
/// `NaiveDateTime::parse_from_str` with the format `%Y-%m-%dT%H:%M:%S%.f` and
/// reads the date and time fields and the sub-second milliseconds. The
/// contract ties the result to the text through `chrono_iso_parse`, and
/// claims what chrono's `NaiveDateTime` holds of every value: a valid date
/// of the proleptic Gregorian calendar in chrono's years -262143 to 262142,
/// hours, minutes and seconds in range, and below 2000 milliseconds (a leap
/// second `:60` is kept as second 59 with 1000 more milliseconds).
#[verifier::external_body]
fn parse_iso_datetime(s: &str) -> (r: Result<Timestamp, chrono::format::ParseError>)
    ensures
        r is Ok <==> chrono_iso_parse(s@) is Some,
        r matches Ok(t) ==> chrono_iso_parse(s@) == Some(timestamp_fields(t)),
        r matches Ok(t) ==> valid_date(t.year as int, t.month as int, t.day as int) && t.hour < 24
            && t.minute < 60 && t.second < 60 && t.millis < 2000 && -262143 <= t.year <= 262142,
{
    match chrono::NaiveDateTime::parse_from_str(s, "%Y-%m-%dT%H:%M:%S%.f") {
        Ok(dt) => Ok(
            Timestamp {
                year: dt.year() as i64,
                month: dt.month(),
                day: dt.day(),
                hour: dt.hour(),
                minute: dt.minute(),
                second: dt.second(),
                millis: dt.and_utc().timestamp_subsec_millis(),
            },
        ),
        Err(e) => Err(e),
    }
}

/// Why no timestamp could be had: chrono refused the text, or the system
/// clock could not be read as a date (before the Unix epoch, or past chrono's
/// last year).
#[derive(Debug)]
pub enum TimestampError {
    Parse(chrono::format::ParseError),
    Clock,
}

/// The timestamp a command names: the current time when none is given, else
/// the ISO text `2026-08-31T14:07:23.456` as chrono reads it.
pub fn parse_timestamp(arg: Option<&str>) -> (r: Result<Timestamp, TimestampError>)
    ensures
        arg is None ==> (r matches Ok(t) ==> t.is_valid() && t.day_number() >= UNIX_EPOCH_JDN),
        arg is None ==> (r matches Err(e) ==> e is Clock),
        arg matches Some(s) ==> (r is Ok <==> chrono_iso_parse(s@) is Some),
        arg matches Some(s) ==> (r matches Ok(t) ==> chrono_iso_parse(s@) == Some(
            timestamp_fields(t),
        )),
        arg matches Some(s) ==> (r matches Err(e) ==> e is Parse),
        r matches Ok(t) ==> valid_date(t.year as int, t.month as int, t.day as int) && t.hour < 24
            && t.minute < 60 && t.second < 60 && -262143 <= t.year <= 262142,
{
    match arg {
        None => match Timestamp::now() {
            Some(t) => Ok(t),
            None => Err(TimestampError::Clock),
        },
        Some(s) => match parse_iso_datetime(s) {
            Ok(t) => Ok(t),
            Err(e) => Err(TimestampError::Parse(e)),
        },
    }
}

/// std's `SystemTime`, carried through as it is.
#[verifier::external_type_specification]
#[verifier::external_body]
pub struct ExSystemTime(std::time::SystemTime);

/// Reads the system clock. Trusted: calls std's `SystemTime::now`; what it
/// reads is the clock's business, and nothing is stated of it.
#[verifier::external_body]
fn system_time_now() -> std::time::SystemTime {
    std::time::SystemTime::now()
}

/// The time since the Unix epoch as whole seconds and the nanoseconds after
/// them, or none for a time before the epoch. Trusted: calls std's
/// `SystemTime::duration_since(UNIX_EPOCH)`, which fails for an earlier
/// time, and reads the `Duration` with `as_secs` and `subsec_nanos`; the
/// contract claims what `subsec_nanos` documents, that the nanoseconds are
/// below one billion. The reading itself is opaque, so nothing ties the
/// numbers to it.
#[verifier::external_body]
fn since_unix_epoch(t: &std::time::SystemTime) -> (d: Option<(u64, u32)>)
    ensures
        d matches Some(p) ==> p.1 < 1_000_000_000,
{
    match t.duration_since(std::time::UNIX_EPOCH) {
        Ok(d) => Some((d.as_secs(), d.subsec_nanos())),
        Err(_) => None,
    }
}

/// The Julian Day Number of 1 January 1970, the Unix epoch.
pub const UNIX_EPOCH_JDN: i64 = 2440588;

/// `t` is the UTC time `secs` seconds and `nanos` nanoseconds after the Unix
/// epoch: day number `2440588 + floor(secs / 86400)`, `secs mod 86400`
/// seconds into that day, and `nanos / 10^6` milliseconds.
pub open spec fn unix_fields(t: Timestamp, secs: int, nanos: int) -> bool {
    &&& t.day_number() == UNIX_EPOCH_JDN + secs / 86400
    &&& t.hour * 3600 + t.minute * 60 + t.second == secs % 86400
    &&& t.millis == nanos / 1_000_000
}

/// The UTC date and time `secs` seconds and `nanos` nanoseconds after the
/// Unix epoch. Trusted: calls chrono's `DateTime::from_timestamp` and reads
/// the date and time fields and the sub-second milliseconds. The contract
/// claims what chrono's source shows: a valid proleptic Gregorian date in
/// chrono's years -262143 to 262142 whose day number is
/// `2440588 + floor(secs / 86400)`, the time of day `secs mod 86400` in hours,
/// minutes and seconds, and `nanos / 10^6` milliseconds. For which `secs` the
/// date is out of chrono's range and none comes back is left unsaid.
#[verifier::external_body]
fn timestamp_from_unix(secs: i64, nanos: u32) -> (t: Option<Timestamp>)
    requires
        nanos < 1_000_000_000,
    ensures
        t matches Some(x) ==> x.is_valid() && -262143 <= x.year <= 262142,
        t matches Some(x) ==> unix_fields(x, secs as int, nanos as int),
{
    match chrono::DateTime::from_timestamp(secs, nanos) {
        Some(n) => Some(
            Timestamp {
                year: n.year() as i64,
                month: n.month(),
                day: n.day(),
                hour: n.hour(),
                minute: n.minute(),
                second: n.second(),
                millis: n.timestamp_subsec_millis(),
            },
        ),
        None => None,
    }
}

/// `x` divided by 10, `k` times, each time rounded down.
pub open spec fn div10_iter(x: int, k: nat) -> int
    decreases k,
{
    if k == 0 {
        x
    } else {
        div10_iter(x, (k - 1) as nat) / 10
    }
}

/// `Phi(t)`: the 24 values of a timestamp: hour; minute, second and
/// millisecond in base-24 digits; `rho(month)`, `rho(day)`,
/// `rho(floor(year / 100))`, `rho(year mod 100)`; the seven lowest decimal
/// digits of the day number, most significant first (of `JDN mod 10^7`); and
/// `rho` of the five Long Count places. Divisions round down and remainders
/// lie in `0..divisor`.
pub open spec fn message_values(
    year: int,
    month: int,
    day: int,
    hour: int,
    minute: int,
    second: int,
    millis: int,
) -> Seq<int> {
    let jdn = jdn_spec(year, month, day);
    let maya = maya_spec(jdn);
    seq![
        hour,
        minute / 24,
        minute % 24,
        second / 24,
        second % 24,
        millis / 576,
        (millis / 24) % 24,
        millis % 24,
        month % 24,
        day % 24,
        (year / 100) % 24,
        (year % 100) % 24,
    ] + Seq::new(7, |i: int| div10_iter(jdn, (6 - i) as nat) % 10) + Seq::new(
        5,
        |i: int| maya[i] % 24,
    )
}

/// The number that a sequence of digits denotes, most significant first
/// (`fold(0, |acc, d| acc * 10 + d)`), whatever the digits' range.
pub open spec fn digits_number(d: Seq<int>) -> int
    decreases d.len(),
{
    if d.len() == 0 {
        0
    } else {
        digits_number(d.drop_last()) * 10 + d.last()
    }
}

/// The timestamp that `Timestamp::from_values` rebuilds from a value vector.
pub open spec fn from_values_spec(v: Seq<int>) -> Timestamp {
    let jdn = digits_number(v.subrange(12, 19));
    let date = gregorian_spec(jdn);
    Timestamp {
        year: date.0 as i64,
        month: date.1 as u32,
        day: date.2 as u32,
        hour: v[0] as u32,
        minute: (v[1] * 24 + v[2]) as u32,
        second: (v[3] * 24 + v[4]) as u32,
        millis: (v[5] * 576 + v[6] * 24 + v[7]) as u32,
    }
}

/// `from_values` computes without overflow on `v`: every intermediate sum and
/// product is a value of `i64`, and so is the rebuilt date.
pub open spec fn from_values_fits(v: Seq<int>) -> bool {
    let digits = v.subrange(12, 19);
    &&& v.len() >= 19
    &&& fits_i64(v[1] * 24)
    &&& fits_i64(v[1] * 24 + v[2])
    &&& fits_i64(v[3] * 24)
    &&& fits_i64(v[3] * 24 + v[4])
    &&& fits_i64(v[5] * 576)
    &&& fits_i64(v[6] * 24)
    &&& fits_i64(v[5] * 576 + v[6] * 24)
    &&& fits_i64(v[5] * 576 + v[6] * 24 + v[7])
    &&& forall|k: int|
        0 <= k < 7 ==> fits_i64(10 * digits_number(#[trigger] digits.take(k))) && fits_i64(
            digits_number(digits.take(k + 1)),
        )
    &&& gregorian_fits(digits_number(digits))
}

/// The text `display` writes: `YYYY-MM-DD hh:mm:ss.mmm`, each field
/// zero-padded to its width (the year's sign counts in its four).
pub open spec fn display_spec(t: Timestamp) -> Seq<char> {
    padded_decimal(t.year as int, 4) + seq!['-'] + padded_decimal(t.month as int, 2) + seq!['-']
        + padded_decimal(t.day as int, 2) + seq![' '] + padded_decimal(t.hour as int, 2) + seq![
        ':',
    ] + padded_decimal(t.minute as int, 2) + seq![':'] + padded_decimal(t.second as int, 2)
        + seq!['.'] + padded_decimal(t.millis as int, 3)
}

/// The Julian Day Number of 1 January of year 0, where the minute count starts.
pub const JDN_YEAR_ZERO: i64 = 1721060;

impl Timestamp {
    /// The Julian Day Number of the date.
    pub open spec fn day_number(self) -> int {
        jdn_spec(self.year as int, self.month as int, self.day as int)
    }

    /// Minutes since 1 January of year 0, 00:00:
    /// `(jdn - 1721060) * 1440 + hour * 60 + minute`.
    pub open spec fn minutes(self) -> int {
        (self.day_number() - JDN_YEAR_ZERO) * 1440 + self.hour * 60 + self.minute
    }

    /// The index of the token window of length `window_minutes`.
    pub open spec fn generation_spec(self, window_minutes: int) -> int {
        tdiv(self.minutes(), window_minutes)
    }

    /// `total_minutes` computes without overflow.
    pub open spec fn minutes_fit(self) -> bool {
        &&& jdn_fits(self.year as int, self.month as int, self.day as int)
        &&& fits_i64(self.day_number() - JDN_YEAR_ZERO)
        &&& fits_i64((self.day_number() - JDN_YEAR_ZERO) * 1440)
        &&& fits_i64((self.day_number() - JDN_YEAR_ZERO) * 1440 + self.hour * 60)
        &&& fits_i64(self.minutes())
    }

    /// `values` computes without overflow.
    pub open spec fn values_fit(self) -> bool {
        &&& jdn_fits(self.year as int, self.month as int, self.day as int)
        &&& fits_i64(self.day_number() - 584283)
    }

    /// `Phi` of this timestamp.
    pub open spec fn values_spec(self) -> Seq<int> {
        message_values(
            self.year as int,
            self.month as int,
            self.day as int,
            self.hour as int,
            self.minute as int,
            self.second as int,
            self.millis as int,
        )
    }

    /// A real instant: a valid calendar date and a time of day below 24:00,
    /// with fewer than 1000 milliseconds.
    pub open spec fn is_valid(self) -> bool {
        &&& valid_date(self.year as int, self.month as int, self.day as int)
        &&& self.hour < 24
        &&& self.minute < 60
        &&& self.second < 60
        &&& self.millis < 1000
    }

    /// The current time in UTC, as chrono reads the system clock: the
    /// timestamp of the clock's reading since the Unix epoch (see
    /// `from_unix`), a valid instant from 1 January 1970 on within chrono's
    /// years. None when the clock reads before the epoch or the reading is
    /// past chrono's last year (or beyond `i64` seconds); which instant it
    /// is, nothing states.
    pub fn now() -> (t: Option<Timestamp>)
        ensures
            t matches Some(x) ==> x.is_valid() && -262143 <= x.year <= 262142
                && x.day_number() >= UNIX_EPOCH_JDN,
            t matches Some(x) ==> exists|secs: int, nanos: int|
                0 <= secs && 0 <= nanos < 1_000_000_000 && #[trigger] unix_fields(x, secs, nanos),
    {
        let clock = system_time_now();
        match since_unix_epoch(&clock) {
            Some((secs, nanos)) => {
                let r = Timestamp::from_unix(secs, nanos);
                assert(r matches Some(x) ==> unix_fields(x, secs as int, nanos as int));
                r
            },
            None => None,
        }
    }

    /// The UTC timestamp `secs` seconds and `nanos` nanoseconds after the
    /// Unix epoch: its day number is `2440588 + floor(secs / 86400)`, its
    /// time of day `secs mod 86400` seconds, its milliseconds `nanos / 10^6`.
    /// None beyond `i64` seconds, or where chrono has no such date.
    pub fn from_unix(secs: u64, nanos: u32) -> (t: Option<Timestamp>)
        requires
            nanos < 1_000_000_000,
        ensures
            secs > i64::MAX ==> t is None,
            t matches Some(x) ==> x.is_valid() && -262143 <= x.year <= 262142
                && x.day_number() >= UNIX_EPOCH_JDN,
            t matches Some(x) ==> unix_fields(x, secs as int, nanos as int),
    {
        if secs > 0x7fff_ffff_ffff_ffff {
            return None;
        }
        timestamp_from_unix(secs as i64, nanos)
    }

    /// The Julian Day Number of the date.
    pub fn jdn(&self) -> (j: i64)
        requires
            jdn_fits(self.year as int, self.month as int, self.day as int),
        ensures
            j == self.day_number(),
    {
        julian_day_number(self.year, self.month, self.day)
    }

    /// Minutes since year 0 (1 January, 00:00), for age and window index;
    /// free of any time zone.
    pub fn total_minutes(&self) -> (m: i64)
        requires
            self.minutes_fit(),
        ensures
            m == self.minutes(),
    {
        (self.jdn() - JDN_YEAR_ZERO) * 1440 + self.hour as i64 * 60 + self.minute as i64
    }

    /// The token window this instant belongs to: the index into the key ring.
    pub fn generation(&self, window_minutes: i64) -> (g: i64)
        requires
            self.minutes_fit(),
            window_minutes != 0,
            fits_i64(tdiv(self.minutes(), window_minutes as int)),
        ensures
            g == self.generation_spec(window_minutes as int),
    {
        self.total_minutes().checked_div(window_minutes).unwrap()
    }

    /// `Phi`: the 24 values of this timestamp.
    pub fn values(&self) -> (v: [i64; 24])
        requires
            self.values_fit(),
        ensures
            ints(v@) == self.values_spec(),
    {
        collect_message_values(
            self.year,
            self.month,
            self.day,
            self.hour,
            self.minute,
            self.second,
            self.millis,
        )
    }

    /// `YYYY-MM-DD hh:mm:ss.mmm`.
    pub fn display(&self) -> (s: String)
        ensures
            s@ == display_spec(*self),
    {
        let mut s = String::new();
        push_padded(&mut s, self.year, 4);
        push_char(&mut s, '-');
        push_padded(&mut s, self.month as i64, 2);
        push_char(&mut s, '-');
        push_padded(&mut s, self.day as i64, 2);
        push_char(&mut s, ' ');
        push_padded(&mut s, self.hour as i64, 2);
        push_char(&mut s, ':');
        push_padded(&mut s, self.minute as i64, 2);
        push_char(&mut s, ':');
        push_padded(&mut s, self.second as i64, 2);
        push_char(&mut s, '.');
        push_padded(&mut s, self.millis as i64, 3);
        assert(s@ =~= display_spec(*self));
        s
    }

    /// Rebuilds a timestamp from a 24-value vector (the counterpart of
    /// `values`): time of day from its base-24 digits, date from the seven
    /// day-number digits.
    pub fn from_values(v: &[i64]) -> (t: Timestamp)
        requires
            from_values_fits(ints(v@)),
        ensures
            t == from_values_spec(ints(v@)),
    {
        let ghost vi = ints(v@);
        let hour = v[0];
        let minute = v[1] * 24 + v[2];
        let second = v[3] * 24 + v[4];
        let millis = v[5] * 576 + v[6] * 24 + v[7];
        let ghost digits = vi.subrange(12, 19);
        let mut jdn: i64 = 0;
        let mut k: usize = 0;
        while k < 7
            invariant
                k <= 7,
                v@.len() >= 19,
                vi == ints(v@),
                digits == vi.subrange(12, 19),
                from_values_fits(vi),
                jdn == digits_number(digits.take(k as int)),
            decreases 7 - k,
        {
            assert(digits.take(k + 1).drop_last() =~= digits.take(k as int));
            assert(fits_i64(10 * digits_number(digits.take(k as int))) && fits_i64(
                digits_number(digits.take(k + 1)),
            ));
            jdn = jdn * 10 + v[12 + k];
            k = k + 1;
        }
        assert(digits.take(7) =~= digits);
        let (y, m, d) = jdn_to_gregorian(jdn);
        Timestamp {
            year: y,
            month: m as u32,
            day: d as u32,
            hour: hour as u32,
            minute: minute as u32,
            second: second as u32,
            millis: millis as u32,
        }
    }
}

/// `Phi`: captures the timestamp as 24 values.
pub fn collect_message_values(
    year: i64,
    month: u32,
    day: u32,
    hour: u32,
    minute: u32,
    second: u32,
    millisecond: u32,
) -> (v: [i64; 24])
    requires
        jdn_fits(year as int, month as int, day as int),
        fits_i64(jdn_spec(year as int, month as int, day as int) - 584283),
    ensures
        ints(v@) == message_values(
            year as int,
            month as int,
            day as int,
            hour as int,
            minute as int,
            second as int,
            millisecond as int,
        ),
{
    let jdn = julian_day_number(year, month, day);
    let maya = maya_long_count(jdn);
    let mut values = [0i64; 24];
    values[0] = hour as i64;
    values[1] = (minute / 24) as i64;
    values[2] = (minute % 24) as i64;
    values[3] = (second / 24) as i64;
    values[4] = (second % 24) as i64;
    values[5] = (millisecond / 576) as i64;
    values[6] = ((millisecond / 24) % 24) as i64;
    values[7] = (millisecond % 24) as i64;
    values[8] = (month as i64) % 24;
    values[9] = (day as i64) % 24;
    values[10] = floor_mod(floor_div(year, 100), 24);
    values[11] = floor_mod(year, 100) % 24;
    let ghost head = values@;
    let mut n = jdn;
    let mut i: usize = 7;
    while i > 0
        invariant
            i <= 7,
            n == div10_iter(jdn as int, (7 - i) as nat),
            forall|m: int| 0 <= m < 12 ==> #[trigger] values[m] == head[m],
            forall|m: int|
                i <= m < 7 ==> #[trigger] values[12 + m] as int == div10_iter(
                    jdn as int,
                    (6 - m) as nat,
                ) % 10,
        decreases i,
    {
        i = i - 1;
        values[12 + i] = floor_mod(n, 10);
        n = floor_div(n, 10);
    }
    let ghost mid = values@;
    let ghost maya_s = maya_spec(jdn as int);
    let mut i: usize = 0;
    while i < 5
        invariant
            i <= 5,
            maya@.map_values(|x: i64| x as int) == maya_s,
            forall|m: int| 0 <= m < 19 ==> #[trigger] values[m] == mid[m],
            forall|m: int| 0 <= m < i ==> #[trigger] values[19 + m] as int == maya_s[m] % 24,
        decreases 5 - i,
    {
        assert(maya@.map_values(|x: i64| x as int)[i as int] == maya[i as int] as int);
        values[19 + i] = floor_mod(maya[i], 24);
        i = i + 1;
    }
    let ghost expect = message_values(
        year as int,
        month as int,
        day as int,
        hour as int,
        minute as int,
        second as int,
        millisecond as int,
    );
    assert forall|m: int| 0 <= m < 24 implies #[trigger] ints(values@)[m] == expect[m] by {
        if 12 <= m < 19 {
            assert(values[12 + (m - 12)] == values[m]);
        } else if m >= 19 {
            assert(values[19 + (m - 19)] == values[m]);
        }
    }
    assert(ints(values@) =~= expect);
    values
}


/// For a date with month in `1..=12`, day at most 31 and a year of magnitude at
/// most `2^40`, the day number, the minutes and the values compute without
/// overflow, and the day number has magnitude below `2^49`.
pub proof fn lemma_timestamp_fits(ts: Timestamp)
    requires
        1 <= ts.month <= 12,
        ts.day <= 31,
        -0x100_0000_0000 <= ts.year <= 0x100_0000_0000,
    ensures
        jdn_fits(ts.year as int, ts.month as int, ts.day as int),
        ts.minutes_fit(),
        ts.values_fit(),
        -0x2_0000_0000_0000 <= ts.day_number() <= 0x2_0000_0000_0000,
{
    let month = ts.month as int;
    crate::calendar::lemma_jdn_m_range(month);
    let y = jdn_y(ts.year as int, month);
    vstd::arithmetic::div_mod::lemma_fundamental_div_mod(y, 4);
    vstd::arithmetic::div_mod::lemma_fundamental_div_mod(y, 100);
    vstd::arithmetic::div_mod::lemma_fundamental_div_mod(y, 400);
    let mp = crate::calendar::jdn_m(month);
    vstd::arithmetic::div_mod::lemma_fundamental_div_mod(153 * mp + 2, 5);
}

proof fn lemma_div10_iter(x: int, k: nat)
    ensures
        div10_iter(x, k) == x / pow10(k),
        pow10(k) >= 1,
    decreases k,
{
    if k > 0 {
        lemma_div10_iter(x, (k - 1) as nat);
        crate::arith::lemma_floor_div_div(x, pow10((k - 1) as nat), 10);
    }
}

proof fn lemma_digits_prefix(x: int, d: Seq<int>, k: nat)
    requires
        0 <= x < 10_000_000,
        d.len() == 7,
        forall|i: int| 0 <= i < 7 ==> #[trigger] d[i] == div10_iter(x, (6 - i) as nat) % 10,
        k <= 7,
    ensures
        digits_number(d.take(k as int)) == x / pow10((7 - k) as nat),
        0 <= digits_number(d.take(k as int)) < 10_000_000,
    decreases k,
{
    lemma_div10_iter(x, (7 - k) as nat);
    if k == 0 {
        reveal_with_fuel(pow10, 8);
        assert(pow10(7) == 10_000_000);
        assert(d.take(0).len() == 0);
        assert(digits_number(d.take(0)) == 0);
        vstd::arithmetic::div_mod::lemma_basic_div(x, 10_000_000);
    } else {
        let j = (k - 1) as nat;
        lemma_digits_prefix(x, d, j);
        assert(d.take(k as int).drop_last() =~= d.take(j as int));
        let p = pow10((6 - j) as nat);
        lemma_div10_iter(x, (6 - j) as nat);
        assert(pow10((7 - j) as nat) == p * 10);
        vstd::arithmetic::div_mod::lemma_div_denominator(x, p, 10);
        vstd::arithmetic::div_mod::lemma_fundamental_div_mod(x / p, 10);
        vstd::arithmetic::div_mod::lemma_div_is_ordered_by_denominator(x, 1, p);
        assert(d.take(k as int).last() == d[j as int]);
        assert(d[j as int] == (x / p) % 10);
        assert((7 - k) as nat == (6 - j) as nat);
        assert(digits_number(d.take(k as int)) == (x / (p * 10)) * 10 + (x / p) % 10);
    }
}

/// `from_values` undoes `values`: a timestamp with a valid date whose day
/// number has seven decimal digits (`0 <= JDN < 10^7`, about years -4712 to
/// 22666) is rebuilt exactly from its value vector.
pub proof fn lemma_values_roundtrip(ts: Timestamp)
    requires
        valid_date(ts.year as int, ts.month as int, ts.day as int),
        -4712 <= ts.year <= 22666,
        0 <= ts.day_number() < 10_000_000,
    ensures
        ts.values_fit(),
        from_values_fits(ts.values_spec()),
        from_values_spec(ts.values_spec()) == ts,
{
    lemma_timestamp_fits(ts);
    let v = ts.values_spec();
    let x = ts.day_number();
    let digits = v.subrange(12, 19);
    assert forall|i: int| 0 <= i < 7 implies #[trigger] digits[i] == div10_iter(
        x,
        (6 - i) as nat,
    ) % 10 by {
        assert(digits[i] == v[12 + i]);
    }
    assert forall|k: int| 0 <= k < 7 implies fits_i64(10 * digits_number(#[trigger] digits.take(k)))
        && fits_i64(digits_number(digits.take(k + 1))) by {
        lemma_digits_prefix(x, digits, k as nat);
        lemma_digits_prefix(x, digits, (k + 1) as nat);
    }
    lemma_digits_prefix(x, digits, 7);
    assert(digits.take(7) =~= digits);
    reveal_with_fuel(pow10, 1);
    assert(digits_number(digits) == x);
    lemma_gregorian_jdn(ts.year as int, ts.month as int, ts.day as int);
    let m = ts.minute as int;
    let sec = ts.second as int;
    let ms = ts.millis as int;
    vstd::arithmetic::div_mod::lemma_fundamental_div_mod(m, 24);
    vstd::arithmetic::div_mod::lemma_fundamental_div_mod(sec, 24);
    vstd::arithmetic::div_mod::lemma_fundamental_div_mod(ms, 24);
    vstd::arithmetic::div_mod::lemma_fundamental_div_mod(ms / 24, 24);
    vstd::arithmetic::div_mod::lemma_div_denominator(ms, 24, 24);
    let t = from_values_spec(v);
    assert(t.minute == ts.minute);
    assert(t.second == ts.second);
    assert(t.millis == ts.millis);
    assert(t.hour == ts.hour);
}

/// Every value of a timestamp with month in `1..=12`, day at most 31 and a
/// year of magnitude at most `2^40` lies in `0..2^32`.
pub proof fn lemma_values_small(ts: Timestamp)
    requires
        1 <= ts.month <= 12,
        ts.day <= 31,
        -0x100_0000_0000 <= ts.year <= 0x100_0000_0000,
    ensures
        ts.values_spec().len() == 24,
        forall|i: int|
            0 <= i < 24 ==> -0x1_0000_0000 <= #[trigger] ts.values_spec()[i] <= 0x1_0000_0000,
{
    lemma_timestamp_fits(ts);
    let v = ts.values_spec();
    assert forall|i: int| 0 <= i < 24 implies -0x1_0000_0000 <= #[trigger] v[i] <= 0x1_0000_0000 by {
    }
}

/// Digits in `0..24` denote a number from 0 to `3 * 10^n - 3`.
proof fn lemma_digits_number_bound(d: Seq<int>)
    requires
        all_in_range(d, 0, 24),
    ensures
        0 <= digits_number(d) <= 3 * pow10(d.len()) - 3,
    decreases d.len(),
{
    if d.len() > 0 {
        lemma_digits_number_bound(d.drop_last());
    }
}

spec fn all_in_range(d: Seq<int>, lo: int, hi: int) -> bool {
    forall|i: int| 0 <= i < d.len() ==> lo <= #[trigger] d[i] < hi
}

/// A vector in `Z_24^24` is rebuilt without overflow into a timestamp with a
/// month in `1..=12`, a day in `1..=31`, a time of day below 24:24:24, and a
/// year from -4800 to 2^48, whose minutes compute without overflow.
pub proof fn lemma_from_values_small(v: Seq<int>)
    requires
        v.len() == 24,
        forall|i: int| 0 <= i < 24 ==> 0 <= #[trigger] v[i] < 24,
    ensures
        from_values_fits(v),
        1 <= from_values_spec(v).month <= 12,
        1 <= from_values_spec(v).day <= 31,
        -4800 <= from_values_spec(v).year <= 0x1_0000_0000_0000,
        from_values_spec(v).minutes_fit(),
        -0x4000_0000_0000 <= from_values_spec(v).minutes() <= 0x4000_0000_0000,
{
    let digits = v.subrange(12, 19);
    assert forall|k: int| 0 <= k <= 7 implies 0 <= #[trigger] digits_number(digits.take(k))
        <= 30_000_000 by {
        let p = digits.take(k);
        assert(all_in_range(p, 0, 24));
        lemma_digits_number_bound(p);
        reveal_with_fuel(pow10, 8);
        if k < 7 {
            lemma_pow10_mono(k as nat, 7);
        }
    }
    assert(digits.take(7) =~= digits);
    let jdn = digits_number(digits);
    lemma_gregorian_range(jdn);
    let ts = from_values_spec(v);
    assert(0 <= v[0] < 24 && 0 <= v[1] < 24 && 0 <= v[2] < 24);
    lemma_timestamp_fits(ts);
    assert(-0x2_0000_0000_0000 <= ts.day_number() <= 0x2_0000_0000_0000);
}

proof fn lemma_pow10_mono(i: nat, j: nat)
    requires
        i <= j,
    ensures
        1 <= pow10(i) <= pow10(j),
    decreases j,
{
    if i < j {
        lemma_pow10_mono(i, (j - 1) as nat);
    } else if i > 0 {
        lemma_pow10_mono((i - 1) as nat, (i - 1) as nat);
    }
}

/// `Phi(t)` lies in `Z_24^24` for every valid timestamp (with a year of
/// magnitude at most `2^40`, so that it computes in `i64`).
pub proof fn lemma_values_in_z24(ts: Timestamp)
    requires
        ts.is_valid(),
        -0x100_0000_0000 <= ts.year <= 0x100_0000_0000,
    ensures
        ts.values_fit(),
        ts.values_spec().len() == 24,
        forall|i: int| 0 <= i < 24 ==> 0 <= #[trigger] ts.values_spec()[i] < 24,
{
    lemma_timestamp_fits(ts);
    let v = ts.values_spec();
    assert forall|i: int| 0 <= i < 24 implies 0 <= #[trigger] v[i] < 24 by {
    }
}
/// Minute counts move with the clock: seconds and milliseconds do not count;
/// one minute later in the same hour is one minute more; the same time of day
/// on the next calendar date is 1440 minutes more.
pub proof fn lemma_minutes_steps(a: Timestamp, b: Timestamp)
    requires
        a.is_valid(),
    ensures
        (a.year == b.year && a.month == b.month && a.day == b.day && a.hour == b.hour
            && a.minute == b.minute) ==> b.minutes() == a.minutes(),
        (a.year == b.year && a.month == b.month && a.day == b.day && a.hour == b.hour
            && b.minute == a.minute + 1) ==> b.minutes() == a.minutes() + 1,
        ((b.year as int, b.month as int, b.day as int) == crate::calendar::next_date(
            a.year as int,
            a.month as int,
            a.day as int,
        ) && a.hour == b.hour && a.minute == b.minute) ==> b.minutes() == a.minutes() + 1440,
{
    crate::calendar::lemma_jdn_next_day(a.year as int, a.month as int, a.day as int);
}

/// Window indices count windows: for a positive window length a later
/// instant never has a smaller index, and from year 0 on, `w` minutes later is
/// exactly one window later.
pub proof fn lemma_generation_steps(a: Timestamp, b: Timestamp, w: int)
    requires
        w > 0,
    ensures
        a.minutes() <= b.minutes() ==> a.generation_spec(w) <= b.generation_spec(w),
        (a.minutes() >= 0 && b.minutes() == a.minutes() + w) ==> b.generation_spec(w)
            == a.generation_spec(w) + 1,
{
    let x = a.minutes();
    let y = b.minutes();
    crate::arith::lemma_floor_trunc(x, w);
    crate::arith::lemma_floor_trunc(y, w);
    if x <= y {
        if x >= 0 {
            vstd::arithmetic::div_mod::lemma_div_is_ordered(x, y, w);
        } else if y < 0 {
            vstd::arithmetic::div_mod::lemma_div_is_ordered(-y, -x, w);
        } else {
            vstd::arithmetic::div_mod::lemma_div_pos_is_pos(-x, w);
            vstd::arithmetic::div_mod::lemma_div_pos_is_pos(y, w);
        }
    }
    if x >= 0 && y == x + w {
        vstd::arithmetic::div_mod::lemma_fundamental_div_mod(x, w);
        assert(y == (x / w + 1) * w + x % w) by (nonlinear_arith)
            requires
                x == w * (x / w) + x % w,
                y == x + w,
        ;
        vstd::arithmetic::div_mod::lemma_fundamental_div_mod_converse(y, w, x / w + 1, x % w);
    }
}

/// `from_values` reads only the time digits `v[0..8]` and the day-number
/// digits `v[12..19]`: for vectors that agree there, either both rebuilds
/// compute without overflow or neither does, and they rebuild the same
/// timestamp.
pub proof fn lemma_from_values_reads(v: Seq<int>, u: Seq<int>)
    requires
        v.len() >= 19,
        u.len() >= 19,
        forall|i: int| (0 <= i < 8 || 12 <= i < 19) ==> #[trigger] v[i] == u[i],
    ensures
        from_values_fits(v) == from_values_fits(u),
        from_values_spec(v) == from_values_spec(u),
{
    assert(v.subrange(12, 19) =~= u.subrange(12, 19));
    assert(v[0] == u[0] && v[1] == u[1] && v[2] == u[2] && v[3] == u[3] && v[4] == u[4]);
    assert(v[5] == u[5] && v[6] == u[6] && v[7] == u[7]);
}
/// The characters `s[a..b]` are decimal digits that denote `n`.
pub open spec fn digits_at(s: Seq<char>, a: int, b: int, n: int) -> bool {
    &&& forall|i: int| 0 <= i < b - a ==> is_digit_byte(#[trigger] ascii_bytes(s.subrange(a, b))[i])
    &&& decimal_value(ascii_bytes(s.subrange(a, b))) == n
}

/// The text `display` writes for a valid timestamp with a year from 0 to
/// 9999: 23 characters `YYYY-MM-DD hh:mm:ss.mmm`, each field the decimal
/// digits of its value zero-padded to its fixed width, with the separators
/// between.
pub proof fn lemma_display_fields(t: Timestamp)
    requires
        t.is_valid(),
        0 <= t.year <= 9999,
    ensures
        display_spec(t).len() == 23,
        display_spec(t)[4] == '-' && display_spec(t)[7] == '-' && display_spec(t)[10] == ' ',
        display_spec(t)[13] == ':' && display_spec(t)[16] == ':' && display_spec(t)[19] == '.',
        digits_at(display_spec(t), 0, 4, t.year as int),
        digits_at(display_spec(t), 5, 7, t.month as int),
        digits_at(display_spec(t), 8, 10, t.day as int),
        digits_at(display_spec(t), 11, 13, t.hour as int),
        digits_at(display_spec(t), 14, 16, t.minute as int),
        digits_at(display_spec(t), 17, 19, t.second as int),
        digits_at(display_spec(t), 20, 23, t.millis as int),
{
    reveal_with_fuel(pow10, 5);
    let y = padded_decimal(t.year as int, 4);
    let mo = padded_decimal(t.month as int, 2);
    let d = padded_decimal(t.day as int, 2);
    let h = padded_decimal(t.hour as int, 2);
    let mi = padded_decimal(t.minute as int, 2);
    let se = padded_decimal(t.second as int, 2);
    let ms = padded_decimal(t.millis as int, 3);
    lemma_padded_digits(t.year as int, 4);
    lemma_padded_digits(t.month as int, 2);
    lemma_padded_digits(t.day as int, 2);
    lemma_padded_digits(t.hour as int, 2);
    lemma_padded_digits(t.minute as int, 2);
    lemma_padded_digits(t.second as int, 2);
    lemma_padded_digits(t.millis as int, 3);
    let s = display_spec(t);
    assert(s =~= y + seq!['-'] + mo + seq!['-'] + d + seq![' '] + h + seq![':'] + mi + seq![':']
        + se + seq!['.'] + ms);
    assert(s.subrange(0, 4) =~= y);
    assert(s.subrange(5, 7) =~= mo);
    assert(s.subrange(8, 10) =~= d);
    assert(s.subrange(11, 13) =~= h);
    assert(s.subrange(14, 16) =~= mi);
    assert(s.subrange(17, 19) =~= se);
    assert(s.subrange(20, 23) =~= ms);
}

/// On one date the minute count is the time of day: timestamps of the same
/// date differ by 60 minutes per hour and one per minute, whatever their
/// seconds and milliseconds.
pub proof fn lemma_minutes_time_of_day(a: Timestamp, b: Timestamp)
    requires
        a.year == b.year,
        a.month == b.month,
        a.day == b.day,
    ensures
        b.minutes() - a.minutes() == 60 * (b.hour - a.hour) + (b.minute - a.minute),
{
}

/// The count starts at 1 January of year 0: on that date the minute count
/// is `60 * hour + minute`.
pub proof fn lemma_minutes_origin(t: Timestamp)
    requires
        t.year == 0,
        t.month == 1,
        t.day == 1,
    ensures
        t.minutes() == 60 * t.hour + t.minute,
{
    crate::calendar::lemma_jdn_m_range(1);
    assert(t.day_number() == 1721060);
}
/// `Phi(t)`, value by value, in terms of the timestamp's fields, for every
/// timestamp: the hour; minute, second and millisecond as their base-24
/// digits; month and day mod 24; `floor(year / 100)` and `year mod 100`, each
/// mod 24; the seven lowest decimal digits of the day number, most
/// significant first; and the Long Count of `days = JDN - 584283`: baktun mod
/// 24, then katun, tun, uinal and kin, the mixed-radix digits of
/// `days mod 144000`.
pub proof fn lemma_values_components(t: Timestamp)
    ensures
        ({
            let v = t.values_spec();
            let j = t.day_number();
            let days = j - 584283;
            &&& v.len() == 24
            &&& v[0] == t.hour
            &&& 24 * v[1] + v[2] == t.minute && 0 <= v[2] < 24
            &&& 24 * v[3] + v[4] == t.second && 0 <= v[4] < 24
            &&& 576 * v[5] + 24 * v[6] + v[7] == t.millis && 0 <= v[6] < 24 && 0 <= v[7] < 24
            &&& v[8] == t.month % 24
            &&& v[9] == t.day % 24
            &&& v[10] == (t.year / 100) % 24
            &&& v[11] == (t.year % 100) % 24
            &&& forall|i: int| 0 <= i < 7 ==> #[trigger] v[12 + i] == (j / pow10((6 - i) as nat)) % 10
            &&& v[19] == (days / 144000) % 24
            &&& 7200 * v[20] + 360 * v[21] + 20 * v[22] + v[23] == days % 144000
            &&& 0 <= v[20] < 20 && 0 <= v[21] < 20 && 0 <= v[22] < 18 && 0 <= v[23] < 20
        }),
{
    let v = t.values_spec();
    let j = t.day_number();
    let ms = t.millis as int;
    vstd::arithmetic::div_mod::lemma_fundamental_div_mod(t.minute as int, 24);
    vstd::arithmetic::div_mod::lemma_fundamental_div_mod(t.second as int, 24);
    vstd::arithmetic::div_mod::lemma_fundamental_div_mod(ms, 24);
    vstd::arithmetic::div_mod::lemma_fundamental_div_mod(ms / 24, 24);
    vstd::arithmetic::div_mod::lemma_div_denominator(ms, 24, 24);
    assert forall|i: int| 0 <= i < 7 implies #[trigger] v[12 + i] == (j / pow10((6 - i) as nat))
        % 10 by {
        lemma_div10_iter(j, (6 - i) as nat);
    }
    crate::calendar::lemma_maya_digits(j);
    let c = maya_spec(j);
    assert(v[19] == c[0] % 24);
    assert(v[20] == c[1] && v[21] == c[2] && v[22] == c[3] && v[23] == c[4]);
    let days = j - 584283;
    vstd::arithmetic::div_mod::lemma_fundamental_div_mod(days, 144000);
}
} // verus!
