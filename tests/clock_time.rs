use nap::clock_time::{parse_clock_time, ClockTime, ClockTimeError};

fn hm(s: &str) -> (u64, u64) {
    let t = parse_clock_time(s).unwrap();
    (t.hour, t.minute)
}

#[test]
fn meridiem_conversion() {
    assert_eq!(hm("12:00am"), (0, 0));
    assert_eq!(hm("12:00pm"), (12, 0));
    assert_eq!(hm("1:00pm"), (13, 0));
    assert_eq!(hm("11:00am"), (11, 0));
    assert_eq!(hm("6:30pm"), (18, 30));
}

#[test]
fn case_and_whitespace_are_tolerated() {
    assert_eq!(hm("6:00 AM"), (6, 0));
    assert_eq!(hm("  6:00PM\t"), (18, 0));
    assert_eq!(hm(" 18:00 "), (18, 0));
    assert_eq!(hm("07:05"), (7, 5));
}

#[test]
fn twenty_four_hour_clock() {
    assert_eq!(hm("00:00"), (0, 0));
    assert_eq!(hm("12:30"), (12, 30));
    assert_eq!(hm("23:59"), (23, 59));
    assert_eq!(hm("+7:05"), (7, 5));
}

#[test]
fn malformed_times_are_rejected() {
    assert_eq!(parse_clock_time("1200"), Err(ClockTimeError::Format));
    assert_eq!(parse_clock_time("1:2:3"), Err(ClockTimeError::Format));
    assert_eq!(parse_clock_time("am"), Err(ClockTimeError::Format));
    assert_eq!(parse_clock_time("ab:00"), Err(ClockTimeError::Hour));
    assert_eq!(parse_clock_time(":30"), Err(ClockTimeError::Hour));
    assert_eq!(parse_clock_time("10:xx"), Err(ClockTimeError::Minute));
    assert_eq!(parse_clock_time("10: 5"), Err(ClockTimeError::Minute));
}

#[test]
fn out_of_range_times_are_rejected() {
    assert_eq!(parse_clock_time("25:00"), Err(ClockTimeError::Range));
    assert_eq!(parse_clock_time("24:00"), Err(ClockTimeError::Range));
    assert_eq!(parse_clock_time("10:60"), Err(ClockTimeError::Range));
    assert_eq!(parse_clock_time("13:00pm"), Err(ClockTimeError::Range));
    assert_eq!(parse_clock_time("0:30am"), Err(ClockTimeError::Range));
}

#[test]
fn milliseconds_of_day() {
    assert_eq!(ClockTime { hour: 0, minute: 0 }.ms_of_day(), 0);
    assert_eq!(ClockTime { hour: 18, minute: 0 }.ms_of_day(), 64_800_000);
    assert_eq!(ClockTime { hour: 23, minute: 59 }.ms_of_day(), 86_340_000);
}
