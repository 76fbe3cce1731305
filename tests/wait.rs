use nap::wait::{bucket_interval, next_sleep, wait_step};

#[test]
fn bucket_table() {
    assert_eq!(bucket_interval(100_001), 10_000);
    assert_eq!(bucket_interval(100_000), 5_000);
    assert_eq!(bucket_interval(50_001), 5_000);
    assert_eq!(bucket_interval(50_000), 1_000);
    assert_eq!(bucket_interval(10_000), 1_000);
    assert_eq!(bucket_interval(9_999), 500);
    assert_eq!(bucket_interval(1_000), 500);
    assert_eq!(bucket_interval(999), 10);
}

#[test]
fn wait_stops_at_the_target() {
    let target = 1_000_000_005_000;
    assert_eq!(wait_step(target, target, false), None);
    assert_eq!(wait_step(target + 1, target, false), None);
    assert_eq!(wait_step(target - 1, target, false), Some(1));
    assert_eq!(wait_step(1_000_000_000_000, target, false), Some(500));
}

#[test]
fn sleep_never_passes_the_target() {
    assert_eq!(wait_step(0, 5, false), Some(5));
    assert_eq!(wait_step(0, 200_000, false), Some(10_000));
    assert_eq!(wait_step(0, 60_000, false), Some(5_000));
}

#[test]
fn plain_sleep_takes_the_whole_remainder() {
    assert_eq!(wait_step(0, 200_000, true), Some(200_000));
    assert_eq!(wait_step(10, 5, true), None);
}

#[test]
fn next_sleep_reads_the_clock() {
    assert_eq!(next_sleep(0, false), None);
    assert_eq!(next_sleep(u64::MAX, false), Some(10_000));
}
