//! Tokens `<generation>.<fingerprint>` with a key per time window, and their
//! stateless validation: a token is MAIN in its own window, SECONDARY and
//! TERTIARY in the two after it, and expired from then on.

use vstd::prelude::*;
use vstd::string::*;
use crate::arith::{fits_i64, tdiv};
use crate::calendar::lemma_tdiv_shrinks;
use crate::feistel::ints;
use crate::fingerprint::{
    fingerprint_fits, fingerprint_spec, make_fingerprint, recover_spec, recover_values_bytes,
};
use crate::mix::{generation_key, generation_key_spec};
use crate::text::{
    ascii_bytes, decimal, lemma_ascii_encode, lemma_parse_decimal, parse_i64, parse_i64_spec,
    push_char, push_padded,
};
use crate::timestamp::{from_values_spec, Timestamp};

verus! {

/// Default window length in minutes.
pub const DEFAULT_WINDOW_MINUTES: i64 = 15;

/// The token of a timestamp for a given window index: the index in decimal,
/// a dot, and the fingerprint made with that window's key.
pub open spec fn token_spec(ts: Timestamp, secret: u64, generation: i64) -> Seq<char> {
    decimal(generation as int) + seq!['.'] + fingerprint_spec(
        ts.values_spec(),
        generation_key_spec(secret, generation),
    )
}

/// Making the token computes without overflow.
pub open spec fn token_fits(ts: Timestamp, secret: u64, generation: i64) -> bool {
    &&& ts.values_fit()
    &&& fingerprint_fits(ts.values_spec(), generation_key_spec(secret, generation))
}

/// The tier of a token `delta` windows old: MAIN, SECONDARY, TERTIARY, or none.
pub open spec fn tier_spec(delta: int) -> Option<Seq<char>> {
    if delta == 0 {
        Some("MAIN"@)
    } else if delta == 1 {
        Some("SECONDARY"@)
    } else if delta == 2 {
        Some("TERTIARY"@)
    } else {
        None
    }
}

/// Error text for a token without a dot.
pub open spec fn msg_form() -> Seq<char> {
    "Token muss die Form <generation>.<fingerprint> haben"@
}

/// Error text for a generation that is not an `i64`.
pub open spec fn msg_generation() -> Seq<char> {
    "ungueltige Generation im Token"@
}

/// Error text for a window outside the key ring.
pub open spec fn msg_expired() -> Seq<char> {
    "ABGELAUFEN / UNGUELTIG (Fenster ausserhalb des Key-Rings)"@
}

/// Error text for a fingerprint that does not belong to its generation.
pub open spec fn msg_forged() -> Seq<char> {
    "UNGUELTIG (Signatur passt nicht zur Generation)"@
}

/// How many bytes come before the first `.` (all of them if there is none).
pub open spec fn dot_scan(b: Seq<u8>) -> nat
    decreases b.len(),
{
    if b.len() == 0 {
        0
    } else if b[0] == 46 {
        0
    } else {
        1 + dot_scan(b.drop_first())
    }
}

/// A clock reading that validation computes with: a valid instant with a
/// year of magnitude at most `2^40`. Every reading `Timestamp::now` gives is one.
pub open spec fn valid_reading(now: Timestamp) -> bool {
    now.is_valid() && -0x100_0000_0000 <= now.year <= 0x100_0000_0000
}

/// Error text for a system clock that cannot be read as a date.
pub open spec fn msg_clock() -> Seq<char> {
    "Systemzeit nicht lesbar (vor 1970 oder nach Jahr 262142)"@
}

/// The checks before the clock: the error for a token without a dot, the
/// error for a generation (the text before the first dot) that is not an
/// `i64`, else the generation.
pub open spec fn token_shape_spec(b: Seq<u8>) -> Result<i64, Seq<char>> {
    let k = dot_scan(b);
    if k == b.len() {
        Err(msg_form())
    } else {
        match parse_i64_spec(b.take(k as int)) {
            None => Err(msg_generation()),
            Some(g) => Ok(g),
        }
    }
}

/// The model of a successful validation: tier, issue time, age in minutes,
/// and the fresh MAIN token if one is issued.
pub type ValidationModel = (Seq<char>, Timestamp, int, Option<Seq<char>>);

/// What validating the token bytes `b` at time `now` gives.
pub open spec fn validate_spec(b: Seq<u8>, secret: u64, window: int, now: Timestamp) -> Result<
    ValidationModel,
    Seq<char>,
> {
    let k = dot_scan(b);
    match token_shape_spec(b) {
        Err(e) => Err(e),
        Ok(g) => {
            let now_gen = tdiv(now.minutes(), window);
            let delta = now_gen - g;
            match tier_spec(delta) {
                None => Err(msg_expired()),
                Some(tier) => match recover_spec(b.skip((k + 1) as int), generation_key_spec(secret, g)) {
                    Err(e) => Err(e),
                    Ok(v) => accept_spec(v, secret, window, now, g as int, tier),
                },
            }
        },
    }
}

/// What validation gives once the fingerprint has decrypted to `v` under the
/// key of window `g`: the forgery error unless the encoded time belongs to
/// window `g` and lies in the years 1900 to 2100; else the tier, the issue
/// time, the age, and a fresh token for the current window when `g` is not it.
#[verifier::opaque]
pub open spec fn accept_spec(
    v: Seq<int>,
    secret: u64,
    window: int,
    now: Timestamp,
    g: int,
    tier: Seq<char>,
) -> Result<ValidationModel, Seq<char>> {
    let now_gen = tdiv(now.minutes(), window);
    let ts = from_values_spec(v);
    if ts.generation_spec(window) != g || ts.year < 1900 || ts.year > 2100 {
        Err(msg_forged())
    } else {
        Ok(
            (
                tier,
                ts,
                now.minutes() - ts.minutes(),
                if now_gen - g > 0 {
                    Some(token_spec(now, secret, now_gen as i64))
                } else {
                    None
                },
            ),
        )
    }
}

/// The window index a token names: the text before its first dot read as an
/// `i64`, or none when there is no dot or the text is not an `i64`.
pub open spec fn token_generation_spec(b: Seq<u8>) -> Option<i64> {
    match token_shape_spec(b) {
        Ok(g) => Some(g),
        Err(_) => None,
    }
}

/// The result of a validation.
pub struct Validation {
    /// "MAIN", "SECONDARY" or "TERTIARY".
    pub tier: &'static str,
    /// The timestamp encoded in the token.
    pub issued_at: Timestamp,
    /// Age in minutes (now minus issue time).
    pub age_minutes: i64,
    /// For SECONDARY and TERTIARY: a new token under the current window's key.
    pub fresh_token: Option<String>,
}

/// The characters of an optional string.
pub open spec fn opt_view(s: Option<String>) -> Option<Seq<char>> {
    match s {
        Some(t) => Some(t@),
        None => None,
    }
}

/// A validation result agrees with its model.
pub open spec fn validation_matches(
    r: Result<Validation, String>,
    m: Result<ValidationModel, Seq<char>>,
) -> bool {
    match r {
        Ok(v) => m is Ok && v.tier@ == m->Ok_0.0 && v.issued_at == m->Ok_0.1 && v.age_minutes
            == m->Ok_0.2 && opt_view(v.fresh_token) == m->Ok_0.3,
        Err(e) => m is Err && e@ == m->Err_0,
    }
}


/// The bytes before `dot_scan(b)` are not dots, and the byte there, if any, is.
pub proof fn lemma_dot_scan(b: Seq<u8>)
    ensures
        dot_scan(b) <= b.len(),
        forall|j: int| 0 <= j < dot_scan(b) ==> #[trigger] b[j] != 46,
        dot_scan(b) < b.len() ==> b[dot_scan(b) as int] == 46,
    decreases b.len(),
{
    if b.len() > 0 && b[0] != 46 {
        let t = b.drop_first();
        lemma_dot_scan(t);
        assert forall|j: int| 0 <= j < dot_scan(b) implies #[trigger] b[j] != 46 by {
            if j > 0 {
                assert(b[j] == t[j - 1]);
            }
        }
    }
}

/// The index of the first `.` byte, or the length if there is none.
fn find_dot(b: &[u8]) -> (k: usize)
    ensures
        k == dot_scan(b@),
{
    proof {
        lemma_dot_scan(b@);
    }
    let mut i: usize = 0;
    while i < b.len()
        invariant
            i <= dot_scan(b@),
            dot_scan(b@) <= b@.len(),
            forall|j: int| 0 <= j < dot_scan(b@) ==> #[trigger] b@[j] != 46,
            dot_scan(b@) < b@.len() ==> b@[dot_scan(b@) as int] == 46,
        decreases b@.len() - i,
    {
        if b[i] == 46 {
            return i;
        }
        i = i + 1;
    }
    i
}

/// The tier name of a token `delta` windows old, or none once it has expired.
pub fn tier_name(delta: i64) -> (r: Option<&'static str>)
    ensures
        r is Some <==> tier_spec(delta as int) is Some,
        r matches Some(s) ==> s@ == tier_spec(delta as int)->Some_0,
{
    match delta {
        0 => Some("MAIN"),
        1 => Some("SECONDARY"),
        2 => Some("TERTIARY"),
        _ => None,
    }
}

/// The token of `ts` for the given window index: `<generation>.<fingerprint>`,
/// the fingerprint made with that window's key.
pub fn make_token_with_generation(ts: &Timestamp, secret: u64, generation: i64) -> (t: String)
    requires
        token_fits(*ts, secret, generation),
    ensures
        t@ == token_spec(*ts, secret, generation),
{
    let fp = make_fingerprint(&ts.values(), generation_key(secret, generation));
    let mut t = String::new();
    push_padded(&mut t, generation, 0);
    push_char(&mut t, '.');
    t.append(fp.as_str());
    assert(t@ =~= token_spec(*ts, secret, generation));
    t
}

/// The token of `ts` in the window of `window_minutes` minutes it falls in.
pub fn make_token(ts: &Timestamp, secret: u64, window_minutes: i64) -> (t: String)
    requires
        ts.minutes_fit(),
        window_minutes != 0,
        fits_i64(ts.generation_spec(window_minutes as int)),
        token_fits(*ts, secret, ts.generation_spec(window_minutes as int) as i64),
    ensures
        t@ == token_spec(*ts, secret, ts.generation_spec(window_minutes as int) as i64),
{
    make_token_with_generation(ts, secret, ts.generation(window_minutes))
}

/// The window index a token names, if it has the form `<generation>.<rest>`
/// with an `i64` generation. Validation divides by the window length exactly
/// for such tokens.
pub fn token_generation(token: &str) -> (g: Option<i64>)
    ensures
        g == token_generation_spec(token.spec_bytes()),
{
    match token_shape(token.as_bytes()) {
        Ok((_, g)) => Some(g),
        Err(_) => None,
    }
}

/// The checks before the clock, on the token's bytes: the index of the first
/// dot and the generation before it, or the error.
fn token_shape(bytes: &[u8]) -> (r: Result<(usize, i64), String>)
    ensures
        r matches Ok(p) ==> p.0 == dot_scan(bytes@) && p.0 < bytes@.len() && token_shape_spec(
            bytes@,
        ) == Ok::<i64, Seq<char>>(p.1),
        r matches Err(e) ==> token_shape_spec(bytes@) == Err::<i64, Seq<char>>(e@),
{
    proof {
        lemma_dot_scan(bytes@);
    }
    let k = find_dot(bytes);
    if k == bytes.len() {
        return Err(String::from_str("Token muss die Form <generation>.<fingerprint> haben"));
    }
    let g_bytes = vstd::slice::slice_subrange(bytes, 0, k);
    assert(g_bytes@ =~= bytes@.take(k as int));
    match parse_i64(g_bytes) {
        Some(g) => Ok((k, g)),
        None => Err(String::from_str("ungueltige Generation im Token")),
    }
}

/// A clock reading gives minutes and values that compute without overflow,
/// minutes of magnitude at most `2^60`, and a fingerprint under any key that
/// cannot overflow.
pub proof fn lemma_valid_reading(now: Timestamp)
    requires
        valid_reading(now),
    ensures
        now.minutes_fit(),
        now.values_fit(),
        -0x1000_0000_0000_0000 <= now.minutes() <= 0x1000_0000_0000_0000,
        forall|key: u64| #[trigger] fingerprint_fits(now.values_spec(), key),
{
    crate::timestamp::lemma_timestamp_fits(now);
    crate::timestamp::lemma_values_small(now);
    assert forall|key: u64| #[trigger] fingerprint_fits(now.values_spec(), key) by {
        lemma_round_keys_small(key);
        crate::feistel::lemma_encrypt_fits_bounded(
            now.values_spec(),
            crate::mix::round_keys_spec(key),
        );
    }
}

/// Round keys lie in `0..24`, far below `2^62`.
proof fn lemma_round_keys_small(key: u64)
    ensures
        crate::feistel::keys_small(crate::mix::round_keys_spec(key)),
        crate::mix::round_keys_spec(key).len() == 8,
{
    let keys = crate::mix::round_keys_spec(key);
    assert forall|i: int| 0 <= i < keys.len() implies -0x4000_0000_0000_0000 < #[trigger] keys[i]
        < 0x4000_0000_0000_0000 by {
        assert(keys[i] == (crate::mix::schedule_state(key, (i + 1) as nat) % 24) as int);
    }
}

/// Validates a token at the given time, with no state: the dot, the
/// generation, the window's place in the key ring, the fingerprint under the
/// window's key, and that the encoded time belongs to the generation and lies
/// in the years 1900 to 2100. An old token (SECONDARY, TERTIARY) comes back
/// with a fresh token under the current window's key. Every failure is an
/// error value; the window length must not be 0 for a token that names a
/// generation, which is divided by it.
pub fn validate_token_at(token: &str, secret: u64, window_minutes: i64, now: &Timestamp) -> (r:
    Result<Validation, String>)
    requires
        window_minutes != 0 || token_generation_spec(token.spec_bytes()) is None,
        valid_reading(*now),
    ensures
        validation_matches(
            r,
            validate_spec(token.spec_bytes(), secret, window_minutes as int, *now),
        ),
{
    let bytes = token.as_bytes();
    let ghost b = token.spec_bytes();
    let (k, g) = match token_shape(bytes) {
        Ok(p) => p,
        Err(e) => {
            return Err(e);
        },
    };
    assert(token_generation_spec(b) == Some(g));
    assert(window_minutes != 0);
    proof {
        lemma_valid_reading(*now);
        lemma_tdiv_shrinks(now.minutes(), window_minutes as int);
    }
    let delta = match now.generation(window_minutes).checked_sub(g) {
        Some(d) => d,
        None => {
            return Err(
                String::from_str("ABGELAUFEN / UNGUELTIG (Fenster ausserhalb des Key-Rings)"),
            );
        },
    };
    let tier = match tier_name(delta) {
        Some(t) => t,
        None => {
            return Err(
                String::from_str("ABGELAUFEN / UNGUELTIG (Fenster ausserhalb des Key-Rings)"),
            );
        },
    };
    assert(k < bytes.len());
    let fp_bytes = vstd::slice::slice_subrange(bytes, k + 1, bytes.len());
    assert(fp_bytes@ =~= b.skip((k + 1) as int));
    match recover_values_bytes(fp_bytes, generation_key(secret, g)) {
        Ok(v) => accept(&v, secret, window_minutes, now, g, delta, tier),
        Err(e) => Err(e),
    }
}

/// The last step of validation, on the decrypted value vector: the forgery
/// check and the result with a fresh token when the window has moved on.
fn accept(
    v: &[i64; 24],
    secret: u64,
    window_minutes: i64,
    now: &Timestamp,
    g: i64,
    delta: i64,
    tier: &'static str,
) -> (r: Result<Validation, String>)
    requires
        window_minutes != 0,
        valid_reading(*now),
        crate::feistel::all_in(ints(v@), 0, 24),
        delta == tdiv(now.minutes(), window_minutes as int) - g,
        tier_spec(delta as int) == Some(tier@),
    ensures
        validation_matches(
            r,
            accept_spec(ints(v@), secret, window_minutes as int, *now, g as int, tier@),
        ),
{
    proof {
        reveal(accept_spec);
        lemma_valid_reading(*now);
        lemma_tdiv_shrinks(now.minutes(), window_minutes as int);
        crate::timestamp::lemma_from_values_small(ints(v@));
        lemma_tdiv_shrinks(from_values_spec(ints(v@)).minutes(), window_minutes as int);
    }
    let ts = Timestamp::from_values(v);
    if ts.generation(window_minutes) != g || ts.year < 1900 || ts.year > 2100 {
        return Err(String::from_str("UNGUELTIG (Signatur passt nicht zur Generation)"));
    }
    let age_minutes = now.total_minutes() - ts.total_minutes();
    let fresh_token = if delta > 0 {
        Some(make_token_with_generation(now, secret, g + delta))
    } else {
        None
    };
    Ok(Validation { tier, issued_at: ts, age_minutes, fresh_token })
}

/// Validates a token against the current time (see `validate_token_at`).
/// Errors are values, never an abort. A token without a dot or with a
/// generation that is not an `i64` gets its error before the clock is read;
/// a clock that cannot be read as a date gives the clock error; otherwise
/// the result is the one `validate_token_at` gives for some reading of the
/// clock.
pub fn validate_token(token: &str, secret: u64, window_minutes: i64) -> (r: Result<
    Validation,
    String,
>)
    requires
        window_minutes != 0 || token_generation_spec(token.spec_bytes()) is None,
    ensures
        token_shape_spec(token.spec_bytes()) matches Err(e) ==> (r matches Err(x) && x@ == e),
        token_shape_spec(token.spec_bytes()) is Ok ==> (r matches Err(x) && x@ == msg_clock())
            || exists|now: Timestamp|
            valid_reading(now) && now.day_number() >= crate::timestamp::UNIX_EPOCH_JDN
                && validation_matches(
                r,
                #[trigger] validate_spec(token.spec_bytes(), secret, window_minutes as int, now),
            ),
{
    match token_shape(token.as_bytes()) {
        Ok(_) => {},
        Err(e) => {
            return Err(e);
        },
    }
    let now = match Timestamp::now() {
        Some(t) => t,
        None => {
            return Err(
                String::from_str("Systemzeit nicht lesbar (vor 1970 oder nach Jahr 262142)"),
            );
        },
    };
    let r = validate_token_at(token, secret, window_minutes, &now);
    assert(validation_matches(
        r,
        validate_spec(token.spec_bytes(), secret, window_minutes as int, now),
    ));
    r
}

/// The token that `make_token` issues for `ts` in windows of `window` minutes.
pub open spec fn issued_token(ts: Timestamp, secret: u64, window: int) -> Seq<char> {
    token_spec(ts, secret, ts.generation_spec(window) as i64)
}

/// What validating the token issued for `ts` gives at time `now`: the expiry
/// error once more than two windows have passed (or for a token from the
/// future); else, for an issue time outside the years 1900 to 2100, the
/// forgery error; else the tier by the number of windows passed, the issue
/// time, the age, and a fresh token for the current window when the token is
/// not MAIN.
pub open spec fn expected_validation(ts: Timestamp, now: Timestamp, secret: u64, window: int) -> Result<
    ValidationModel,
    Seq<char>,
> {
    let now_gen = now.generation_spec(window);
    let delta = now_gen - ts.generation_spec(window);
    match tier_spec(delta) {
        None => Err(msg_expired()),
        Some(tier) => if ts.year < 1900 || ts.year > 2100 {
            Err(msg_forged())
        } else {
            Ok(
                (
                    tier,
                    ts,
                    now.minutes() - ts.minutes(),
                    if delta > 0 {
                        Some(token_spec(now, secret, now_gen as i64))
                    } else {
                        None
                    },
                ),
            )
        },
    }
}

proof fn lemma_jdn_range(ts: Timestamp)
    requires
        ts.is_valid(),
        0 <= ts.year <= 22665,
    ensures
        1721058 <= ts.day_number() < 10_000_000,
{
    let month = ts.month as int;
    crate::calendar::lemma_jdn_m_range(month);
    let y = crate::calendar::jdn_y(ts.year as int, month);
    vstd::arithmetic::div_mod::lemma_fundamental_div_mod(y, 4);
    vstd::arithmetic::div_mod::lemma_fundamental_div_mod(y, 100);
    vstd::arithmetic::div_mod::lemma_fundamental_div_mod(y, 400);
    let mp = crate::calendar::jdn_m(month);
    vstd::arithmetic::div_mod::lemma_fundamental_div_mod(153 * mp + 2, 5);
}

/// The lifecycle of a token, the library's central promise. For a valid
/// timestamp in the years 0 to 22665, windows of any nonzero length and any
/// clock reading: the token can be made, and validating it gives MAIN in its
/// own window, SECONDARY one window later and TERTIARY two windows later,
/// each with the issue time and the age and a fresh token for the current
/// window unless MAIN, and the expiry error
/// in every other window; issue times outside the years 1900 to 2100 are
/// refused as forged while in the ring.
pub proof fn lemma_token_lifecycle(ts: Timestamp, now: Timestamp, secret: u64, window: i64)
    requires
        ts.is_valid(),
        0 <= ts.year <= 22665,
        window != 0,
        valid_reading(now),
    ensures
        ts.minutes_fit(),
        fits_i64(ts.generation_spec(window as int)),
        token_fits(ts, secret, ts.generation_spec(window as int) as i64),
        vstd::utf8::encode_utf8(issued_token(ts, secret, window as int)) == ascii_bytes(
            issued_token(ts, secret, window as int),
        ),
        validate_spec(ascii_bytes(issued_token(ts, secret, window as int)), secret, window as int, now)
            == expected_validation(ts, now, secret, window as int),
{
    reveal(accept_spec);
    let w = window as int;
    crate::timestamp::lemma_timestamp_fits(ts);
    lemma_jdn_range(ts);
    lemma_tdiv_shrinks(ts.minutes(), w);
    let g = ts.generation_spec(w);
    let gi = g as i64;
    let key = generation_key_spec(secret, gi);
    crate::timestamp::lemma_values_in_z24(ts);
    let values = ts.values_spec();
    crate::fingerprint::lemma_fingerprint_roundtrip(values, key);
    crate::timestamp::lemma_values_roundtrip(ts);
    let fp = fingerprint_spec(values, key);
    crate::codec::lemma_base62_roundtrip(
        crate::codec::base24_value(
            crate::feistel::feistel_encrypt_spec(values, crate::mix::round_keys_spec(key)),
        ) as nat,
    );
    lemma_token_bytes(gi, fp);
    let tok = issued_token(ts, secret, w);
    let b = ascii_bytes(tok);
    let k = dot_scan(b);
    lemma_valid_reading(now);
    lemma_tdiv_shrinks(now.minutes(), w);
    assert(recover_spec(b.skip((k + 1) as int), key) == Ok::<Seq<int>, Seq<char>>(values));
}

/// The token text `<g>.<fp>` for an ASCII fingerprint: it is ASCII, its
/// first dot follows the decimal generation, the generation reads back, and
/// the fingerprint's bytes follow the dot.
proof fn lemma_token_bytes(g: i64, fp: Seq<char>)
    requires
        vstd::utf8::is_ascii_chars(fp),
    ensures
        vstd::utf8::encode_utf8(decimal(g as int) + seq!['.'] + fp) == ascii_bytes(
            decimal(g as int) + seq!['.'] + fp,
        ),
        dot_scan(ascii_bytes(decimal(g as int) + seq!['.'] + fp)) < ascii_bytes(
            decimal(g as int) + seq!['.'] + fp,
        ).len(),
        parse_i64_spec(
            ascii_bytes(decimal(g as int) + seq!['.'] + fp).take(
                dot_scan(ascii_bytes(decimal(g as int) + seq!['.'] + fp)) as int,
            ),
        ) == Some(g),
        ascii_bytes(decimal(g as int) + seq!['.'] + fp).skip(
            (dot_scan(ascii_bytes(decimal(g as int) + seq!['.'] + fp)) + 1) as int,
        ) == ascii_bytes(fp),
{
    lemma_parse_decimal(g);
    let dec = decimal(g as int);
    let tok = dec + seq!['.'] + fp;
    let db = ascii_bytes(dec);
    let fb = ascii_bytes(fp);
    let b = ascii_bytes(tok);
    assert(b =~= db + seq![46u8] + fb);
    assert(vstd::utf8::is_ascii_chars(tok)) by {
        assert forall|i: int| 0 <= i < tok.len() implies '\0' <= #[trigger] tok[i] <= '\u{7f}' by {
            if i < dec.len() {
                assert(tok[i] == dec[i]);
            } else if i > dec.len() {
                assert(tok[i] == fp[i - dec.len() - 1]);
            }
        }
    }
    lemma_ascii_encode(tok);
    lemma_dot_scan(b);
    let k = dot_scan(b);
    assert(b[dec.len() as int] == 46);
    assert forall|j: int| 0 <= j < dec.len() implies #[trigger] b[j] != 46 by {
        assert(b[j] == db[j]);
        assert(dec[j] != '.');
    }
    assert(k == dec.len());
    assert(b.take(k as int) =~= db);
    assert(b.skip((k + 1) as int) =~= fb);
}


/// Up-levelling: the fresh token that validation hands out for an old token
/// is itself a MAIN token at that moment, with the current time as its issue
/// time and age zero, for clock readings in the years 1900 to 2100.
pub proof fn lemma_fresh_token_is_main(now: Timestamp, secret: u64, window: i64)
    requires
        valid_reading(now),
        1900 <= now.year <= 2100,
        window != 0,
    ensures
        issued_token(now, secret, window as int) == token_spec(
            now,
            secret,
            now.generation_spec(window as int) as i64,
        ),
        validate_spec(ascii_bytes(issued_token(now, secret, window as int)), secret, window as int, now)
            == Ok::<ValidationModel, Seq<char>>(("MAIN"@, now, 0, None)),
{
    lemma_token_lifecycle(now, now, secret, window);
}

/// `make_token` can be called on every timestamp with a month in `1..=12`, a
/// day up to 31 and a year of magnitude at most `2^40` (any time of day), for
/// every secret and nonzero window.
pub proof fn lemma_make_token_demands(ts: Timestamp, secret: u64, window: i64)
    requires
        1 <= ts.month <= 12,
        ts.day <= 31,
        -0x100_0000_0000 <= ts.year <= 0x100_0000_0000,
        window != 0,
    ensures
        ts.minutes_fit(),
        fits_i64(ts.generation_spec(window as int)),
        token_fits(ts, secret, ts.generation_spec(window as int) as i64),
{
    crate::timestamp::lemma_timestamp_fits(ts);
    crate::timestamp::lemma_values_small(ts);
    lemma_tdiv_shrinks(ts.minutes(), window as int);
    let key = generation_key_spec(secret, ts.generation_spec(window as int) as i64);
    lemma_round_keys_small(key);
    crate::feistel::lemma_encrypt_fits_bounded(ts.values_spec(), crate::mix::round_keys_spec(key));
}
} // verus!
