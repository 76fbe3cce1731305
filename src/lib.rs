//! Suspend-aware waiting: read how long to wait, resolve the earliest wake
//! instant among the requested candidates, and decide each step of the wait
//! against the wall clock.
pub mod text;
pub mod duration;
pub mod clock_time;
pub mod switches;
mod clock;
pub mod resolve;
pub mod wait;
