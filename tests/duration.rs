use nap::duration::parse_number_with_suffix;

fn ms(s: &str) -> u64 {
    parse_number_with_suffix(s).unwrap()
}

#[test]
fn plain_number_is_seconds() {
    assert_eq!(ms("5"), 5_000);
    assert_eq!(ms("0"), 0);
}

#[test]
fn each_suffix_has_its_multiplier() {
    assert_eq!(ms("5s"), 5_000);
    assert_eq!(ms("2m"), 120_000);
    assert_eq!(ms("1h"), 3_600_000);
    assert_eq!(ms("1d"), 86_400_000);
}

#[test]
fn fractions_round_to_nearest_millisecond() {
    assert_eq!(ms("1.5s"), 1_500);
    assert_eq!(ms("1.5"), 1_500);
    assert_eq!(ms(".5m"), 30_000);
    assert_eq!(ms("5."), 5_000);
    assert_eq!(ms("0.0004"), 0);
    assert_eq!(ms("0.0005"), 1);
    assert_eq!(ms("0.0015"), 2);
    assert_eq!(ms("0.00001h"), 36);
    assert_eq!(ms("0.000001d"), 86);
    assert_eq!(ms("1.23456789"), 1_235);
}

#[test]
fn round_trip_for_every_suffix() {
    for (u, mult) in [("", 1u64), ("s", 1), ("m", 60), ("h", 3600), ("d", 86400)] {
        let text = format!("2.25{}", u);
        assert_eq!(ms(&text), 2_250 * mult);
    }
}

#[test]
fn huge_duration_saturates() {
    assert_eq!(ms("99999999999999999999999d"), u64::MAX);
    assert_eq!(ms("18446744073709551"), 18_446_744_073_709_551_000);
}

#[test]
fn malformed_durations_are_rejected() {
    for bad in ["", "s", ".", "abc", "5x", "1.2.3", "-5", "5ss", "1e3", "+5", " 5", "5 s"] {
        let e = parse_number_with_suffix(bad).unwrap_err();
        assert_eq!(e, format!("Invalid duration: {}", bad));
    }
}
