//! How much is logged, by the number of times more was asked for.

use vstd::prelude::*;

verus! {

/// The levels of a log, from the quietest on.
#[derive(Debug, Clone, Copy, PartialEq, Eq, Structural)]
pub enum LogLevel {
    Warn,
    Info,
    Debug,
    Trace,
}

/// The level for a number of requests for more: warnings without any, then
/// one level more with each request, and never more than everything.
pub open spec fn level_for(occurrences: u64) -> LogLevel {
    if occurrences == 0 {
        LogLevel::Warn
    } else if occurrences == 1 {
        LogLevel::Info
    } else if occurrences == 2 {
        LogLevel::Debug
    } else {
        LogLevel::Trace
    }
}

/// The level at which to log when more was asked for `occurrences` times.
pub fn log_level(occurrences: u64) -> (level: LogLevel)
    ensures
        level == level_for(occurrences),
{
    match occurrences {
        0 => LogLevel::Warn,
        1 => LogLevel::Info,
        2 => LogLevel::Debug,
        _ => LogLevel::Trace,
    }
}

} // verus!
