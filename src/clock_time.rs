//! Times of day: `HH:MM` on the 24-hour clock, or `H:MM` followed by `am`
//! or `pm` on the 12-hour clock.
use vstd::prelude::*;
use crate::text::{
    chars_of, digits_value, find_char, index_of, lower, lower_range, parse_u64_range,
    parses_u64, trim, trim_range, unsigned_digits,
};

verus! {

/// Milliseconds in one day.
pub const DAY_MS: u64 = 86_400_000;

/// A time of day on the 24-hour clock.
#[derive(Clone, Copy, Debug, PartialEq, Eq, Structural)]
pub struct ClockTime {
    pub hour: u64,
    pub minute: u64,
}

/// Why a time of day was rejected.
#[derive(Clone, Copy, Debug, PartialEq, Eq, Structural)]
pub enum ClockTimeError {
    /// Not two fields separated by a single `:`.
    Format,
    /// The hour field is not a number.
    Hour,
    /// The minute field is not a number.
    Minute,
    /// The hour or the minute lies outside its range.
    Range,
}

impl ClockTime {
    /// Minutes and hours in range.
    pub open spec fn wf(self) -> bool {
        self.hour < 24 && self.minute < 60
    }

    /// Milliseconds from midnight to this time of day.
    pub open spec fn spec_ms_of_day(self) -> nat {
        ((self.hour * 3600 + self.minute * 60) * 1000) as nat
    }

    /// Milliseconds from midnight to this time of day.
    pub fn ms_of_day(&self) -> (r: u64)
        requires
            self.wf(),
        ensures
            r == self.spec_ms_of_day(),
            r < DAY_MS,
    {
        (self.hour * 3600 + self.minute * 60) * 1000
    }
}

/// The text trimmed, with ASCII letters lowered. (No letter beyond ASCII
/// can form part of an accepted time, whatever its case.)
pub open spec fn normalized(s: Seq<char>) -> Seq<char> {
    trim(s).map_values(|c: char| lower(c))
}

pub open spec fn ends_with_pair(t: Seq<char>, a: char, b: char) -> bool {
    t.len() >= 2 && t[t.len() - 2] == a && t[t.len() - 1] == b
}

/// The normalized text ends with `am`.
pub open spec fn is_am(s: Seq<char>) -> bool {
    ends_with_pair(normalized(s), 'a', 'm')
}

/// The normalized text ends with `pm`.
pub open spec fn is_pm(s: Seq<char>) -> bool {
    ends_with_pair(normalized(s), 'p', 'm')
}

/// The text carries a meridiem.
pub open spec fn has_meridiem(s: Seq<char>) -> bool {
    is_am(s) || is_pm(s)
}

/// The normalized text without its meridiem, trimmed again.
pub open spec fn clock_body(s: Seq<char>) -> Seq<char> {
    let t = normalized(s);
    if has_meridiem(s) {
        trim(t.subrange(0, t.len() - 2))
    } else {
        t
    }
}

pub open spec fn hour_text(b: Seq<char>) -> Seq<char> {
    b.subrange(0, index_of(b, ':') as int)
}

pub open spec fn minute_text(b: Seq<char>) -> Seq<char> {
    b.subrange(index_of(b, ':') as int + 1, b.len() as int)
}

/// Exactly one `:` in the text.
pub open spec fn has_two_fields(b: Seq<char>) -> bool {
    index_of(b, ':') < b.len() && index_of(minute_text(b), ':') == minute_text(b).len()
}

/// An hour as written, on the 24-hour clock.
pub open spec fn hour_of_day(h: nat, am: bool, pm: bool) -> nat {
    if pm && h != 12 {
        h + 12
    } else if am && h == 12 {
        0
    } else {
        h
    }
}

/// What a time-of-day text denotes, or why it is rejected. The checks come in
/// this order: the two fields, the hour's number, the minute's number, then
/// the ranges (hours to 23 and minutes to 59; with a meridiem, hours 1 to 12).
pub open spec fn clock_time_of(s: Seq<char>) -> Result<ClockTime, ClockTimeError> {
    let b = clock_body(s);
    if !has_two_fields(b) {
        Err(ClockTimeError::Format)
    } else if !parses_u64(hour_text(b)) {
        Err(ClockTimeError::Hour)
    } else if !parses_u64(minute_text(b)) {
        Err(ClockTimeError::Minute)
    } else {
        let h = digits_value(unsigned_digits(hour_text(b)));
        let m = digits_value(unsigned_digits(minute_text(b)));
        if h > 23 || m >= 60 {
            Err(ClockTimeError::Range)
        } else if has_meridiem(s) && (h < 1 || h > 12) {
            Err(ClockTimeError::Range)
        } else {
            Ok(ClockTime { hour: hour_of_day(h, is_am(s), is_pm(s)) as u64, minute: m as u64 })
        }
    }
}

/// Reads a time of day: trims and lowers the text, takes off an `am` or
/// `pm`, and reads `hours:minutes`.
pub fn parse_clock_time(s: &str) -> (r: Result<ClockTime, ClockTimeError>)
    ensures
        r == clock_time_of(s@),
        r matches Ok(ct) ==> ct.wf(),
{
    let cs = chars_of(s);
    let (a, b) = trim_range(&cs, 0, cs.len());
    assert(cs@.subrange(0, cs.len() as int) =~= s@);
    let t = lower_range(&cs, a, b);
    assert(t@ == normalized(s@));
    let n = t.len();
    let am = n >= 2 && t[n - 2] == 'a' && t[n - 1] == 'm';
    let pm = n >= 2 && t[n - 2] == 'p' && t[n - 1] == 'm';
    let (lo, hi) = if am || pm {
        trim_range(&t, 0, n - 2)
    } else {
        (0, n)
    };
    let ghost body = clock_body(s@);
    assert(body =~= t@.subrange(lo as int, hi as int));
    let ci = find_char(&t, lo, hi, ':');
    if ci == hi {
        return Err(ClockTimeError::Format);
    }
    let ci2 = find_char(&t, ci + 1, hi, ':');
    assert(minute_text(body) =~= t@.subrange(ci + 1, hi as int));
    assert(hour_text(body) =~= t@.subrange(lo as int, ci as int));
    if ci2 != hi {
        return Err(ClockTimeError::Format);
    }
    let h = match parse_u64_range(&t, lo, ci) {
        Some(h) => h,
        None => {
            return Err(ClockTimeError::Hour);
        },
    };
    let m = match parse_u64_range(&t, ci + 1, hi) {
        Some(m) => m,
        None => {
            return Err(ClockTimeError::Minute);
        },
    };
    if h > 23 || m >= 60 {
        return Err(ClockTimeError::Range);
    }
    if (am || pm) && (h < 1 || h > 12) {
        return Err(ClockTimeError::Range);
    }
    let hour = if pm && h != 12 {
        h + 12
    } else if am && h == 12 {
        0
    } else {
        h
    };
    Ok(ClockTime { hour, minute: m })
}

} // verus!
