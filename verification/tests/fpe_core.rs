use ergebnis_fpe::codec::{decode, encode, from_base62, to_base62};
use ergebnis_fpe::feistel::{feistel_decrypt, feistel_encrypt, resolve};
use ergebnis_fpe::mix::{fmix64, generation_key, key_schedule_from_secret};
use ergebnis_fpe::{make_fingerprint, recover_values, Timestamp};

const SECRET: u64 = 7411156633014379033;

#[test]
fn fmix64_known_values() {
    assert_eq!(fmix64(0), 0);
    assert_eq!(fmix64(1), 12994781566227106604);
    assert_eq!(fmix64(0x0123456789abcdef), 9785191686031420650);
}

#[test]
fn key_schedule_known_values() {
    assert_eq!(key_schedule_from_secret(SECRET), [4, 9, 22, 4, 17, 10, 10, 19]);
}

#[test]
fn generation_key_known_values() {
    assert_eq!(generation_key(SECRET, 236283284), 17913738822417903402);
    assert_eq!(generation_key(SECRET, -1), 2622510548493527929);
}

#[test]
fn resolve_range_and_value() {
    assert_eq!(resolve(5, 0), 17);
    assert_eq!(resolve(0, 23), 23);
    assert_eq!(resolve(12, 0), 12);
    for s in 0..24 {
        for k in 0..24 {
            let r = resolve(s, k);
            assert!(12 <= r && r < 24);
        }
    }
}

#[test]
fn feistel_known_cipher_and_inverse() {
    let mut plain = [0i64; 24];
    for i in 0..24 {
        plain[i] = i as i64;
    }
    let keys = [0i64; 8];
    let cipher = feistel_encrypt(&plain, &keys);
    assert_eq!(
        cipher,
        [0, 22, 20, 18, 16, 2, 0, 10, 20, 6, 16, 14, 12, 7, 14, 9, 16, 11, 6, 1, 20, 3, 22, 5]
    );
    assert_eq!(feistel_decrypt(&cipher, &keys), plain);
}

#[test]
fn feistel_decrypt_then_encrypt_is_identity() {
    let keys = key_schedule_from_secret(99);
    let mut c = [0i64; 24];
    for i in 0..24 {
        c[i] = ((i * 7 + 3) % 24) as i64;
    }
    let p = feistel_decrypt(&c, &keys);
    assert!(p.iter().all(|&x| (0..24).contains(&x)));
    assert_eq!(feistel_encrypt(&p, &keys), c);
}

#[test]
fn encode_known_value_and_decode() {
    let mut v = [0i64; 24];
    for i in 0..24 {
        v[i] = i as i64;
    }
    let n = encode(&v);
    assert_eq!(n, 1331214537196502869015340298036888u128);
    assert_eq!(decode(n), v);
    assert_eq!(encode(&[]), 0);
    assert_eq!(encode(&[5, 1]), 29);
}

#[test]
fn decode_drops_high_digits() {
    let base: u128 = 24u128.pow(24);
    assert_eq!(decode(base + 7), decode(7));
    let d = decode(7);
    assert_eq!(d[0], 7);
    assert!(d[1..].iter().all(|&x| x == 0));
}

#[test]
fn base62_known_values() {
    assert_eq!(to_base62(0), "0");
    assert_eq!(to_base62(61), "z");
    assert_eq!(to_base62(62), "10");
    assert_eq!(to_base62(u128::MAX), "7n42DGM5Tflk9n8mt7Fhc7");
    assert_eq!(from_base62("10"), Ok(62));
    assert_eq!(from_base62(""), Ok(0));
    assert_eq!(from_base62("7n42DGM5Tflk9n8mt7Fhc7"), Ok(u128::MAX));
}

#[test]
fn base62_overflow_is_an_error() {
    let too_big = Err("base62-Wert zu gross (max. 128 Bit)".to_string());
    assert_eq!(from_base62("7n42DGM5Tflk9n8mt7Fhc8"), too_big);
    assert_eq!(from_base62(&"z".repeat(22)), too_big);
    // The overflow comes first when it happens before a bad byte.
    assert_eq!(from_base62(&format!("{}!", "z".repeat(22))), too_big);
    assert_eq!(recover_values(&"z".repeat(30), SECRET), too_big.map(|_: u128| [0i64; 24]));
}

#[test]
fn decode_drops_digits_above_24_pow_24() {
    let mut expect = [0i64; 24];
    expect[0] = 1;
    expect[1] = 2;
    assert_eq!(decode(49), expect);
    assert_eq!(decode(49 + 24u128.pow(24)), expect);
    assert_eq!(decode(u128::MAX), decode(u128::MAX % 24u128.pow(24)));
}

#[test]
fn feistel_with_large_keys_stays_in_z24() {
    let keys = [(1i64 << 62) - 1, -(1i64 << 62) + 1, 25, -1, 1000, 0, 7, -123456789];
    let mut plain = [0i64; 24];
    for i in 0..24 {
        plain[i] = ((i * 5 + 1) % 24) as i64;
    }
    let c = feistel_encrypt(&plain, &keys);
    assert!(c.iter().all(|&x| (0..24).contains(&x)));
    assert_eq!(feistel_decrypt(&c, &keys), plain);
    let p = feistel_decrypt(&plain, &keys);
    assert!(p.iter().all(|&x| (0..24).contains(&x)));
    assert_eq!(feistel_encrypt(&p, &keys), plain);
}

#[test]
fn distinct_windows_get_distinct_keys() {
    let keys: Vec<u64> = (-3i64..3).map(|g| generation_key(SECRET, g)).collect();
    for i in 0..keys.len() {
        for j in 0..i {
            assert_ne!(keys[i], keys[j]);
        }
    }
}

#[test]
fn base62_invalid_char_error() {
    assert_eq!(
        from_base62("ab-c"),
        Err("ungueltiges base62-Zeichen: -".to_string())
    );
    // A non-ASCII char is reported by its first UTF-8 byte, read as a char.
    assert_eq!(
        from_base62("1\u{e4}"),
        Err("ungueltiges base62-Zeichen: \u{c3}".to_string())
    );
}

#[test]
fn fingerprint_known_value() {
    let ts = Timestamp { year: 2026, month: 8, day: 31, hour: 5, minute: 9, second: 35, millis: 638 };
    let v = ts.values();
    assert_eq!(v, [5, 0, 9, 1, 11, 1, 2, 14, 8, 7, 20, 2, 2, 4, 6, 1, 2, 8, 4, 13, 0, 13, 16, 1]);
    assert_eq!(make_fingerprint(&v, SECRET), "14ixEu3HpiHnhfL7c3x");
}

#[test]
fn fingerprint_round_trip_every_digit() {
    for s in [0u64, 1, 42, u64::MAX, SECRET] {
        for shift in 0..24 {
            let mut v = [0i64; 24];
            for i in 0..24 {
                v[i] = ((i + shift) % 24) as i64;
            }
            let fp = make_fingerprint(&v, s);
            assert_eq!(recover_values(&fp, s), Ok(v));
        }
    }
}

#[test]
fn recover_values_reports_bad_char() {
    assert_eq!(
        recover_values("14ix_u3", SECRET),
        Err("ungueltiges base62-Zeichen: _".to_string())
    );
}

#[test]
fn encode_reads_negative_as_u128() {
    assert_eq!(encode(&[-1]), u128::MAX);
    assert_eq!(encode(&[-1, 0, 0]), u128::MAX);
}

#[test]
fn feistel_decrypt_outside_z24() {
    let keys = [0i64; 8];
    let mut c = [0i64; 24];
    c[0] = 100;
    c[23] = -50;
    let p = feistel_decrypt(&c, &keys);
    // Decryption of values outside Z_24 follows the same round arithmetic.
    let mut l: Vec<i64> = c[..12].to_vec();
    let mut r: Vec<i64> = c[12..].to_vec();
    for _ in 0..8 {
        let mut prev = vec![0i64; 12];
        for i in 0..12 {
            let x = r[i] - (12 + (l[i] - 0).abs() % 12);
            prev[i] = if x < 0 { x + 24 } else { x };
        }
        r = l;
        l = prev;
    }
    let expect: Vec<i64> = l.into_iter().chain(r).collect();
    assert_eq!(p.to_vec(), expect);
}

#[test]
fn resolve_is_not_injective() {
    assert_eq!(resolve(0, 1), resolve(2, 1));
    assert_eq!(resolve(0, 1), 13);
}

#[test]
fn decode_then_encode_below_24_pow_24() {
    for n in [0u128, 1, 23, 24, 1331214537196502869015340298036888, 24u128.pow(24) - 1] {
        assert_eq!(encode(&decode(n)), n);
    }
}
