use ergebnis_fpe::calendar::{jdn_to_gregorian, julian_day_number, maya_long_count};
use ergebnis_fpe::parse_timestamp;
use ergebnis_fpe::timestamp::collect_message_values;
use ergebnis_fpe::Timestamp;

#[test]
fn julian_day_number_known_values() {
    assert_eq!(julian_day_number(2000, 1, 1), 2451545);
    assert_eq!(julian_day_number(2026, 8, 31), 2461284);
    assert_eq!(julian_day_number(-4713, 11, 24), 0);
}

#[test]
fn gregorian_of_day_number() {
    assert_eq!(jdn_to_gregorian(2451545), (2000, 1, 1));
    assert_eq!(jdn_to_gregorian(2461284), (2026, 8, 31));
    assert_eq!(jdn_to_gregorian(0), (-4713, 11, 24));
}

#[test]
fn calendar_round_trip_over_leap_years() {
    for year in [1600i64, 1700, 1900, 1999, 2000, 2024, 2100, 2400] {
        for month in 1u32..=12 {
            let leap = (year % 4 == 0 && year % 100 != 0) || year % 400 == 0;
            let days = match month {
                2 => if leap { 29 } else { 28 },
                4 | 6 | 9 | 11 => 30,
                _ => 31,
            };
            for day in 1..=days {
                let j = julian_day_number(year, month, day);
                assert_eq!(jdn_to_gregorian(j), (year, month as i64, day as i64));
            }
        }
    }
}

#[test]
fn maya_long_count_known_values() {
    assert_eq!(maya_long_count(2456283), [13, 0, 0, 0, 0]);
    assert_eq!(maya_long_count(584283), [0, 0, 0, 0, 0]);
    // Before the epoch: floor division, every place below baktun in range.
    assert_eq!(maya_long_count(584282), [-1, 19, 19, 17, 19]);
    assert_eq!(maya_long_count(584283 - 144000), [-1, 0, 0, 0, 0]);
}

#[test]
fn message_values_known_and_negative_year() {
    assert_eq!(
        collect_message_values(-5, 3, 1, 0, 0, 0, 0),
        [0, 0, 0, 0, 0, 0, 0, 0, 3, 1, 23, 23, 1, 7, 1, 9, 2, 9, 3, 7, 17, 12, 14, 10]
    );
}

#[test]
fn timestamp_minutes_and_generation() {
    let ts = Timestamp { year: 2026, month: 8, day: 31, hour: 5, minute: 9, second: 35, millis: 638 };
    assert_eq!(ts.jdn(), 2461284);
    assert_eq!(ts.total_minutes(), 1065922869);
    assert_eq!(ts.generation(15), 71061524);
    assert_eq!(ts.generation(-15), -71061524);
}

#[test]
fn minutes_count_from_year_zero() {
    let start = Timestamp { year: 0, month: 1, day: 1, hour: 0, minute: 0, second: 0, millis: 0 };
    assert_eq!(start.jdn(), 1721060);
    assert_eq!(start.total_minutes(), 0);
    let later = Timestamp { hour: 1, minute: 2, second: 59, millis: 999, ..start.clone() };
    assert_eq!(later.total_minutes(), 62);
    let before = Timestamp { year: -1, month: 12, day: 31, hour: 23, minute: 59, second: 0, millis: 0 };
    assert_eq!(before.total_minutes(), -1);
}

#[test]
fn next_day_has_next_day_number() {
    for (a, b) in [
        ((2024, 2, 28), (2024, 2, 29)),
        ((2024, 2, 29), (2024, 3, 1)),
        ((2023, 2, 28), (2023, 3, 1)),
        ((1900, 2, 28), (1900, 3, 1)),
        ((2026, 12, 31), (2027, 1, 1)),
        ((-5001, 12, 31), (-5000, 1, 1)),
    ] {
        assert_eq!(julian_day_number(b.0, b.1, b.2), julian_day_number(a.0, a.1, a.2) + 1);
    }
    let day = Timestamp { year: 2024, month: 2, day: 29, hour: 7, minute: 30, second: 1, millis: 2 };
    let next = Timestamp { year: 2024, month: 3, day: 1, hour: 7, minute: 30, second: 59, millis: 0 };
    assert_eq!(next.total_minutes(), day.total_minutes() + 1440);
}

#[test]
fn day_numbers_round_down_before_4800_bc() {
    assert_eq!(julian_day_number(-5000, 3, 1), -105093);
    let old = Timestamp { year: -5000, month: 3, day: 1, hour: 0, minute: 0, second: 0, millis: 0 };
    assert!(old.values().iter().all(|&x| (0..24).contains(&x)));
}

#[test]
fn display_pads_fields() {
    let ts = Timestamp { year: 2026, month: 8, day: 31, hour: 5, minute: 9, second: 35, millis: 38 };
    assert_eq!(ts.display(), "2026-08-31 05:09:35.038");
    let old = Timestamp { year: -5, month: 3, day: 1, hour: 0, minute: 0, second: 0, millis: 0 };
    assert_eq!(old.display(), "-005-03-01 00:00:00.000");
    let far = Timestamp { year: 123456, month: 12, day: 31, hour: 23, minute: 59, second: 59, millis: 999 };
    assert_eq!(far.display(), "123456-12-31 23:59:59.999");
}

#[test]
fn from_values_rebuilds_timestamp() {
    let ts = Timestamp { year: 1999, month: 2, day: 28, hour: 23, minute: 59, second: 58, millis: 999 };
    let back = Timestamp::from_values(&ts.values());
    assert_eq!(back.display(), ts.display());
    assert_eq!((back.year, back.month, back.day), (1999, 2, 28));
}

#[test]
fn now_is_a_valid_instant() {
    let t = Timestamp::now().unwrap();
    assert!(t.jdn() >= 2440588);
    assert!(t.year >= 2024);
    assert!((1..=12).contains(&t.month));
    assert!((1..=31).contains(&t.day));
    assert!(t.hour < 24 && t.minute < 60 && t.second < 60 && t.millis < 1000);
}

#[test]
fn parse_timestamp_iso_and_error() {
    let t = parse_timestamp(Some("2026-08-31T14:07:23.456")).unwrap();
    assert_eq!(t.display(), "2026-08-31 14:07:23.456");
    let t = parse_timestamp(Some("2026-08-31T14:07:23")).unwrap();
    assert_eq!(t.millis, 0);
    assert!(parse_timestamp(Some("2026-02-30T14:07:23.456")).is_err());
    assert!(parse_timestamp(Some("gestern")).is_err());
    assert!(parse_timestamp(None).is_ok());
}

#[test]
fn from_values_reads_only_time_and_day_number_digits() {
    let ts = Timestamp { year: 2026, month: 8, day: 31, hour: 5, minute: 9, second: 35, millis: 638 };
    let v = ts.values();
    let mut w = v;
    for i in (8..12).chain(19..24) {
        w[i] = 1000 + i as i64;
    }
    assert_eq!(Timestamp::from_values(&w).display(), Timestamp::from_values(&v).display());
    assert_eq!(Timestamp::from_values(&w[..19]).display(), ts.display());
}
