use ergebnis_fpe::{make_fingerprint, recover_values, Timestamp};

#[test]
fn round_trip() {
    let secret = 7411156633014379033;
    let ts = Timestamp {
        year: 2026,
        month: 8,
        day: 31,
        hour: 5,
        minute: 9,
        second: 35,
        millis: 638,
    };
    let v = ts.values();
    let fp = make_fingerprint(&v, secret);
    let back = recover_values(&fp, secret).unwrap();
    assert_eq!(v, back);
    assert_eq!(ts.display(), Timestamp::from_values(&back).display());
}
