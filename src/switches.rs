//! The invocation: what to wait for, checked and with its duration read.
use vstd::prelude::*;
use crate::duration::{duration_error_text, duration_ms, is_duration, parse_number_with_suffix, saturate};

verus! {

/// What one invocation asks for.
pub struct Invocation {
    /// How long to wait, in milliseconds, where a duration was given.
    pub duration_ms: Option<u64>,
    /// Wake at the next local midnight.
    pub midnight: bool,
    /// Times of day to wake at, as written.
    pub at_times: Vec<String>,
    /// Wait in one sleep rather than in bounded steps.
    pub sleep: bool,
}

/// Why an invocation was rejected.
#[derive(Debug)]
pub enum FlagError {
    /// The duration does not read; the diagnostic names it.
    InvalidDuration(String),
    /// Neither a duration, nor `--midnight`, nor any `--at` was given.
    NothingToWaitFor,
}

impl Invocation {
    /// At least one thing to wait for.
    pub open spec fn wf(&self) -> bool {
        self.duration_ms.is_some() || self.midnight || self.at_times@.len() > 0
    }
}

/// The duration as the invocation holds it: the parsed milliseconds of the text.
pub open spec fn duration_of(number: Option<Seq<char>>) -> Option<u64> {
    match number {
        Some(t) => Some(saturate(duration_ms(t))),
        None => None,
    }
}

/// Checks the arguments of one invocation: the duration, where given, must
/// read, and at least one of a duration, `--midnight` and `--at` must be there.
pub fn process_flags(
    number: Option<&str>,
    midnight: bool,
    at_times: Vec<String>,
    sleep: bool,
) -> (r: Result<Invocation, FlagError>)
    ensures
        match r {
            Ok(inv) => {
                &&& number matches Some(t) ==> is_duration(t@)
                &&& inv.duration_ms == duration_of(
                    match number {
                        Some(t) => Some(t@),
                        None => None,
                    },
                )
                &&& inv.midnight == midnight
                &&& inv.at_times@ == at_times@
                &&& inv.sleep == sleep
                &&& inv.wf()
            },
            Err(FlagError::InvalidDuration(e)) => number matches Some(t) && !is_duration(t@)
                && e@ == duration_error_text(t@),
            Err(FlagError::NothingToWaitFor) => number.is_none() && !midnight && at_times@.len()
                == 0,
        },
{
    let duration_ms = match number {
        Some(t) => match parse_number_with_suffix(t) {
            Ok(ms) => Some(ms),
            Err(e) => {
                return Err(FlagError::InvalidDuration(e));
            },
        },
        None => None,
    };
    if duration_ms.is_none() && !midnight && at_times.len() == 0 {
        return Err(FlagError::NothingToWaitFor);
    }
    Ok(Invocation { duration_ms, midnight, at_times, sleep })
}

} // verus!
