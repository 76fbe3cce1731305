//! The wall clock and the local time zone, read through chrono.
use vstd::prelude::*;

verus! {

/// Relies on chrono's `Local::now` and `DateTime::timestamp_millis`: the
/// current wall-clock instant in milliseconds since the Unix epoch. Nothing
/// is promised of the value; it depends on the moment of the call.
#[verifier::external_body]
pub(crate) fn now_ms() -> (r: u64) {
    chrono::Local::now().timestamp_millis() as u64
}

/// Relies on chrono's `DateTime::from_timestamp_millis`, `with_timezone(&Local)`,
/// `date_naive`, `NaiveDate::and_hms_opt`, `NaiveDateTime::and_local_timezone`
/// and `MappedLocalTime::earliest`: the instant, in milliseconds since the
/// Unix epoch, at which the local calendar day that holds `instant_ms` began;
/// `None` where the local zone skips that midnight. Nothing more is promised:
/// the value depends on the host's time zone.
#[verifier::external_body]
pub(crate) fn local_midnight_ms(instant_ms: u64) -> (r: Option<u64>) {
    let local = chrono::DateTime::from_timestamp_millis(instant_ms as i64)?
        .with_timezone(&chrono::Local);
    let start = local.date_naive().and_hms_opt(0, 0, 0)?;
    let midnight = start.and_local_timezone(chrono::Local).earliest()?;
    Some(midnight.timestamp_millis() as u64)
}

} // verus!
