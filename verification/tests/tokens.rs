use ergebnis_fpe::text::parse_i64;
use ergebnis_fpe::token::tier_name;
use ergebnis_fpe::{
    make_token, token_generation, validate_token, validate_token_at, Timestamp,
    DEFAULT_WINDOW_MINUTES,
};

const SECRET: u64 = 7411156633014379033;

fn ts(hour: u32, minute: u32) -> Timestamp {
    Timestamp { year: 2026, month: 8, day: 31, hour, minute, second: 35, millis: 638 }
}

fn issued() -> String {
    make_token(&ts(5, 9), SECRET, DEFAULT_WINDOW_MINUTES)
}

#[test]
fn make_token_known_value() {
    assert_eq!(issued(), "71061524.CmKnJoP4WGCYmNmzuJ");
    let iso = Timestamp { year: 2026, month: 8, day: 31, hour: 14, minute: 7, second: 23, millis: 456 };
    assert_eq!(make_token(&iso, SECRET, 15), "71061560.6JsUnNg5v7Ib5TCqVxg");
    let y2k = Timestamp { year: 1999, month: 12, day: 31, hour: 23, minute: 59, second: 59, millis: 999 };
    assert_eq!(make_token(&y2k, 42, 60), "17531639.39rfcq9drVd2ONVZtIU");
}

#[test]
fn tier_names() {
    assert_eq!(tier_name(0), Some("MAIN"));
    assert_eq!(tier_name(1), Some("SECONDARY"));
    assert_eq!(tier_name(2), Some("TERTIARY"));
    assert_eq!(tier_name(3), None);
    assert_eq!(tier_name(-1), None);
}

#[test]
fn main_tier_in_own_window() {
    let now = Timestamp { second: 0, millis: 0, ..ts(5, 14) };
    match validate_token_at(&issued(), SECRET, 15, &now) {
        Ok(v) => {
            assert_eq!(v.tier, "MAIN");
            assert_eq!(v.issued_at.display(), "2026-08-31 05:09:35.638");
            assert_eq!(v.age_minutes, 5);
            assert!(v.fresh_token.is_none());
        }
        Err(e) => panic!("{e}"),
    }
}

#[test]
fn secondary_and_tertiary_get_fresh_tokens() {
    let now = Timestamp { second: 0, millis: 0, ..ts(5, 29) };
    match validate_token_at(&issued(), SECRET, 15, &now) {
        Ok(v) => {
            assert_eq!(v.tier, "SECONDARY");
            assert_eq!(v.age_minutes, 20);
            assert_eq!(v.fresh_token.as_deref(), Some("71061525.4VDTbDmE675B7NI555h"));
        }
        Err(e) => panic!("{e}"),
    }
    let now = Timestamp { second: 0, millis: 0, ..ts(5, 44) };
    match validate_token_at(&issued(), SECRET, 15, &now) {
        Ok(v) => {
            assert_eq!(v.tier, "TERTIARY");
            assert_eq!(v.age_minutes, 35);
            let fresh = v.fresh_token.unwrap();
            assert_eq!(fresh, "71061526.5hE7S3RMtMAnle7LHoj");
            // The fresh token is MAIN at that moment.
            match validate_token_at(&fresh, SECRET, 15, &now) {
                Ok(w) => {
                    assert_eq!(w.tier, "MAIN");
                    assert_eq!(w.age_minutes, 0);
                    assert!(w.fresh_token.is_none());
                }
                Err(e) => panic!("{e}"),
            }
        }
        Err(e) => panic!("{e}"),
    }
}

#[test]
fn expired_after_three_windows_and_from_the_future() {
    let expired = "ABGELAUFEN / UNGUELTIG (Fenster ausserhalb des Key-Rings)".to_string();
    let now = Timestamp { second: 0, millis: 0, ..ts(5, 45) };
    assert_eq!(validate_token_at(&issued(), SECRET, 15, &now).err(), Some(expired.clone()));
    let earlier = Timestamp { second: 0, millis: 0, ..ts(4, 59) };
    assert_eq!(validate_token_at(&issued(), SECRET, 15, &earlier).err(), Some(expired));
}

#[test]
fn malformed_tokens() {
    let now = ts(5, 10);
    assert_eq!(
        validate_token_at("71061524CmKnJoP4WGCYmNmzuJ", SECRET, 15, &now).err(),
        Some("Token muss die Form <generation>.<fingerprint> haben".to_string())
    );
    assert_eq!(
        validate_token_at("7106x524.CmKnJoP4WGCYmNmzuJ", SECRET, 15, &now).err(),
        Some("ungueltige Generation im Token".to_string())
    );
    assert_eq!(
        validate_token_at(".CmKnJoP4WGCYmNmzuJ", SECRET, 15, &now).err(),
        Some("ungueltige Generation im Token".to_string())
    );
    assert_eq!(
        validate_token_at("71061524.CmKnJoP4-GCYmNmzuJ", SECRET, 15, &now).err(),
        Some("ungueltiges base62-Zeichen: -".to_string())
    );
}

#[test]
fn forged_tokens() {
    let forged = Some("UNGUELTIG (Signatur passt nicht zur Generation)".to_string());
    let now = ts(5, 10);
    // The right window with the wrong secret decrypts to a foreign timestamp.
    assert_eq!(validate_token_at(&issued(), SECRET ^ 1, 15, &now).err(), forged);
    // A fingerprint moved to a neighbouring generation.
    let now = ts(5, 20);
    assert_eq!(
        validate_token_at("71061525.CmKnJoP4WGCYmNmzuJ", SECRET, 15, &now).err(),
        forged
    );
}

#[test]
fn validate_token_against_the_clock() {
    let now = Timestamp::now().unwrap();
    let token = make_token(&now, SECRET, 15);
    match validate_token(&token, SECRET, 15) {
        Ok(v) => {
            assert!(v.tier == "MAIN" || v.tier == "SECONDARY");
            assert_eq!(v.issued_at.display(), now.display());
        }
        Err(e) => panic!("{e}"),
    }
    assert!(validate_token("kein-token", SECRET, 15).is_err());
}

#[test]
fn out_of_range_tokens_are_errors() {
    let now = ts(5, 10);
    // The window difference leaves i64: expired, not an overflow.
    assert_eq!(
        validate_token_at("-9223372036854775808.0", SECRET, 15, &now).err(),
        Some("ABGELAUFEN / UNGUELTIG (Fenster ausserhalb des Key-Rings)".to_string())
    );
    assert_eq!(
        validate_token_at("9223372036854775807.0", SECRET, -1, &now).err(),
        Some("ABGELAUFEN / UNGUELTIG (Fenster ausserhalb des Key-Rings)".to_string())
    );
    // A fingerprint number beyond u128 is refused.
    let long = format!("71061524.{}", "z".repeat(22));
    assert_eq!(
        validate_token_at(&long, SECRET, 15, &now).err(),
        Some("base62-Wert zu gross (max. 128 Bit)".to_string())
    );
    let g = Timestamp::now().unwrap().generation(15);
    assert!(validate_token(&format!("{g}.{}", "z".repeat(22)), SECRET, 15).is_err());
    assert!(validate_token("-9223372036854775808.0", SECRET, 15).is_err());
}

#[test]
fn validation_keeps_no_state() {
    let now = ts(5, 29);
    let a = validate_token_at(&issued(), SECRET, 15, &now).unwrap();
    let _ = validate_token_at("71061524.zzz", SECRET, 15, &now);
    let b = validate_token_at(&issued(), SECRET, 15, &now).unwrap();
    assert_eq!((a.tier, a.age_minutes, a.fresh_token.clone()), (b.tier, b.age_minutes, b.fresh_token.clone()));
    assert_eq!(a.issued_at.display(), b.issued_at.display());
}

#[test]
fn token_generation_reads_the_window_index() {
    assert_eq!(token_generation("71061524.CmKnJoP4WGCYmNmzuJ"), Some(71061524));
    assert_eq!(token_generation("-7.x"), Some(-7));
    assert_eq!(token_generation("ohne-punkt"), None);
    assert_eq!(token_generation("12a.x"), None);
    // Without a generation, a window of 0 is never divided by.
    assert_eq!(
        validate_token("ohne-punkt", SECRET, 0).err(),
        Some("Token muss die Form <generation>.<fingerprint> haben".to_string())
    );
}

#[test]
fn parse_i64_like_std() {
    for s in ["0", "+5", "-0", "007", "-9223372036854775808", "9223372036854775807", "", "+", "-",
        "12a", "9223372036854775808", "-9223372036854775809", "99999999999999999999999", " 1", "+-1"] {
        assert_eq!(parse_i64(s.as_bytes()), s.parse::<i64>().ok(), "{s}");
    }
}

#[test]
fn issue_years_outside_1900_to_2100_are_refused() {
    let late = Timestamp { year: 2101, month: 1, day: 1, hour: 0, minute: 5, second: 0, millis: 0 };
    let token = make_token(&late, SECRET, 15);
    assert_eq!(
        validate_token_at(&token, SECRET, 15, &late).err(),
        Some("UNGUELTIG (Signatur passt nicht zur Generation)".to_string())
    );
}

#[test]
fn negative_windows_work_alike() {
    let token = make_token(&ts(5, 9), SECRET, -15);
    assert_eq!(token, "-71061524.6PHZyDrz1m9LuMPb9bE");
    match validate_token_at(&token, SECRET, -15, &ts(5, 10)) {
        Ok(v) => assert_eq!(v.tier, "MAIN"),
        Err(e) => panic!("{e}"),
    }
}

#[test]
fn formatted_generations_parse_back() {
    for g in [0i64, 7, -7, 236283284, i64::MAX, i64::MIN] {
        assert_eq!(parse_i64(g.to_string().as_bytes()), Some(g));
    }
}

#[test]
fn any_valid_reading_can_validate() {
    let ancient = Timestamp { year: -100, month: 6, day: 15, hour: 12, minute: 0, second: 0, millis: 0 };
    assert_eq!(
        validate_token_at(&issued(), SECRET, 15, &ancient).err(),
        Some("ABGELAUFEN / UNGUELTIG (Fenster ausserhalb des Key-Rings)".to_string())
    );
    let token = make_token(&ancient, SECRET, 15);
    assert!(token.starts_with('-'));
    // Issued before 1900: refused as forged while in the ring.
    assert_eq!(
        validate_token_at(&token, SECRET, 15, &ancient).err(),
        Some("UNGUELTIG (Signatur passt nicht zur Generation)".to_string())
    );
}
