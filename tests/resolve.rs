use nap::clock_time::ClockTimeError;
use nap::resolve::{process_time, resolve_target, ResolveError};
use nap::switches::{process_flags, FlagError, Invocation};

const MIDNIGHT: u64 = 1_700_006_400_000;
const HOUR: u64 = 3_600_000;
const DAY: u64 = 86_400_000;

fn inv(duration_ms: Option<u64>, midnight: bool, at: &[&str]) -> Invocation {
    Invocation {
        duration_ms,
        midnight,
        at_times: at.iter().map(|s| s.to_string()).collect(),
        sleep: false,
    }
}

#[test]
fn duration_alone_ends_after_the_duration() {
    let i = process_flags(Some("5s"), false, vec![], false).unwrap();
    let now = 1_000_000_000_000;
    assert_eq!(resolve_target(&i, now, MIDNIGHT).unwrap(), 1_000_000_005_000);
}

#[test]
fn at_midnight_and_midnight_agree() {
    let now = MIDNIGHT + 12 * HOUR;
    let t = resolve_target(&inv(None, true, &["00:00"]), now, MIDNIGHT).unwrap();
    assert_eq!(t, MIDNIGHT + DAY);
}

#[test]
fn earliest_time_of_day_wins() {
    let now = MIDNIGHT + 12 * HOUR;
    let t = resolve_target(&inv(None, false, &["6:00am", "18:00"]), now, MIDNIGHT).unwrap();
    assert_eq!(t, MIDNIGHT + 18 * HOUR);
}

#[test]
fn time_still_ahead_today_beats_a_longer_duration() {
    let now = MIDNIGHT + 23 * HOUR + 58 * 60_000 + 30_000;
    let t = resolve_target(&inv(Some(120_000), false, &["23:59"]), now, MIDNIGHT).unwrap();
    assert_eq!(t, MIDNIGHT + 23 * HOUR + 59 * 60_000);
    assert_eq!(t, now + 30_000);
}

#[test]
fn duration_beats_a_rolled_time() {
    let now = MIDNIGHT + 23 * HOUR + 59 * 60_000 + 30_000;
    let t = resolve_target(&inv(Some(120_000), false, &["23:59"]), now, MIDNIGHT).unwrap();
    assert_eq!(t, now + 120_000);
    assert_eq!(t, MIDNIGHT + DAY + 90_000);
    assert!(t < MIDNIGHT + DAY + 23 * HOUR + 59 * 60_000);
}

#[test]
fn past_time_rolls_to_tomorrow() {
    let now = MIDNIGHT + 12 * HOUR;
    let t = resolve_target(&inv(None, false, &["06:00"]), now, MIDNIGHT).unwrap();
    assert_eq!(t, MIDNIGHT + DAY + 6 * HOUR);
    let t = resolve_target(&inv(None, false, &["12:00"]), now, MIDNIGHT).unwrap();
    assert_eq!(t, MIDNIGHT + DAY + 12 * HOUR);
}

#[test]
fn order_of_times_does_not_matter() {
    let now = MIDNIGHT + 9 * HOUR;
    let a = resolve_target(&inv(None, true, &["8:00", "10:00pm", "11:30"]), now, MIDNIGHT);
    let b = resolve_target(&inv(None, true, &["11:30", "8:00", "10:00pm"]), now, MIDNIGHT);
    assert_eq!(a.unwrap(), MIDNIGHT + 11 * HOUR + 30 * 60_000);
    assert_eq!(b.unwrap(), MIDNIGHT + 11 * HOUR + 30 * 60_000);
}

#[test]
fn earliest_of_all_candidates() {
    let now = MIDNIGHT + 20 * HOUR;
    let t = resolve_target(&inv(Some(5 * HOUR), true, &["21:00"]), now, MIDNIGHT).unwrap();
    assert_eq!(t, MIDNIGHT + 21 * HOUR);
    let t = resolve_target(&inv(Some(HOUR / 2), true, &["21:00"]), now, MIDNIGHT).unwrap();
    assert_eq!(t, now + HOUR / 2);
    let t = resolve_target(&inv(Some(5 * HOUR), true, &["19:00"]), now, MIDNIGHT).unwrap();
    assert_eq!(t, MIDNIGHT + DAY);
}

#[test]
fn zero_duration_counts_as_a_candidate() {
    let now = MIDNIGHT + 12 * HOUR;
    let t = resolve_target(&inv(Some(0), false, &["18:00"]), now, MIDNIGHT).unwrap();
    assert_eq!(t, now);
}

#[test]
fn invalid_time_names_the_token() {
    let now = MIDNIGHT + 12 * HOUR;
    let e = resolve_target(&inv(None, false, &["18:00", "25:00", "bad"]), now, MIDNIGHT)
        .unwrap_err();
    assert_eq!(e.token, "25:00");
    assert_eq!(e.kind, ClockTimeError::Range);
}

#[test]
fn no_arguments_is_a_usage_error() {
    let r = process_flags(None, false, vec![], false);
    assert!(matches!(r, Err(FlagError::NothingToWaitFor)));
}

#[test]
fn invalid_duration_is_reported() {
    match process_flags(Some("5x"), true, vec![], false) {
        Err(FlagError::InvalidDuration(e)) => assert_eq!(e, "Invalid duration: 5x"),
        _ => panic!("expected a duration error"),
    }
}

#[test]
fn flags_are_kept() {
    let i = process_flags(Some("2m"), true, vec!["6:00am".to_string()], true).unwrap();
    assert_eq!(i.duration_ms, Some(120_000));
    assert!(i.midnight);
    assert_eq!(i.at_times, vec!["6:00am".to_string()]);
    assert!(i.sleep);
    let i = process_flags(None, false, vec!["18:00".to_string()], false).unwrap();
    assert_eq!(i.duration_ms, None);
}

#[test]
fn process_time_reads_the_clock() {
    let i = inv(Some(1_500), false, &[]);
    let t = process_time(&i).unwrap();
    assert!(t > 1_500_000_000_000 + 1_500);
    let i = inv(None, true, &["12:00"]);
    match process_time(&i) {
        Ok(t) => assert!(t > 1_500_000_000_000),
        Err(ResolveError::NoLocalMidnight) => {}
        Err(ResolveError::Time(e)) => panic!("unexpected error for {}", e.token),
    }
    let i = inv(None, false, &["99:00"]);
    assert!(process_time(&i).is_err());
}
