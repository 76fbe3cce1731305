//! The wait: one decision per look at the wall clock, sleeping in steps
//! bounded by the time that remains, so that a wait interrupted by a
//! suspend of the host ends soon after it resumes.
use vstd::prelude::*;
use crate::clock::now_ms;

verus! {

/// How long to sleep before looking at the clock again, given the
/// milliseconds that remain.
pub open spec fn bucket(remaining: nat) -> nat {
    if remaining > 100_000 {
        10_000
    } else if remaining > 50_000 {
        5_000
    } else if remaining >= 10_000 {
        1_000
    } else if remaining >= 1_000 {
        500
    } else {
        10
    }
}

/// The decision at instant `now` for the wake instant `target`: `None` once
/// the target is reached, else how many milliseconds to sleep (the whole
/// remainder in plain-sleep mode, else the bucket, never past the target).
pub open spec fn step_of(now: u64, target: u64, sleep: bool) -> Option<u64> {
    if now >= target {
        None
    } else {
        let remaining = (target - now) as nat;
        let interval = if sleep {
            remaining
        } else {
            bucket(remaining)
        };
        Some(
            if interval < remaining {
                interval as u64
            } else {
                remaining as u64
            },
        )
    }
}

/// The sleep interval for the milliseconds that remain.
pub fn bucket_interval(remaining: u64) -> (r: u64)
    ensures
        r == bucket(remaining as nat),
{
    if remaining > 100_000 {
        10_000
    } else if remaining > 50_000 {
        5_000
    } else if remaining >= 10_000 {
        1_000
    } else if remaining >= 1_000 {
        500
    } else {
        10
    }
}

/// Decides one step of the wait at instant `now`.
pub fn wait_step(now: u64, target: u64, sleep: bool) -> (r: Option<u64>)
    ensures
        r == step_of(now, target, sleep),
{
    if now >= target {
        return None;
    }
    let remaining = target - now;
    let interval = if sleep {
        remaining
    } else {
        bucket_interval(remaining)
    };
    Some(if interval < remaining { interval } else { remaining })
}

/// Looks at the wall clock and decides one step of the wait towards `target`.
pub fn next_sleep(target: u64, sleep: bool) -> (r: Option<u64>)
    ensures
        exists|now: u64| r == #[trigger] step_of(now, target, sleep),
{
    let now = now_ms();
    let r = wait_step(now, target, sleep);
    assert(r == step_of(now, target, sleep));
    r
}

/// The wait ends only at the target: the decision is to stop exactly when
/// the clock reads the wake instant or later.
pub proof fn lemma_stops_only_at_target(now: u64, target: u64, sleep: bool)
    ensures
        step_of(now, target, sleep) is None <==> now >= target,
{
}

/// Each sleep is bounded: at least one millisecond, never past the target,
/// the whole remainder in plain-sleep mode, and otherwise at most one bucket
/// for the time that remains (ten seconds at most).
pub proof fn lemma_sleep_bounded(now: u64, target: u64, sleep: bool)
    requires
        now < target,
    ensures
        step_of(now, target, sleep) matches Some(x) && {
            &&& 1 <= x <= target - now
            &&& sleep ==> x == target - now
            &&& !sleep ==> x <= bucket((target - now) as nat) && x <= 10_000
        },
{
}

} // verus!
