//! How much the program reports, from its `--verbose` and `--quiet` flags.

use vstd::prelude::*;

verus! {

/// The least severe kind of message that is still reported.
#[derive(Debug, Clone, Copy, PartialEq, Eq, Structural)]
pub enum LogLevel {
    Off,
    Error,
    Warn,
    Info,
    Debug,
    Trace,
}

/// The level for a verbosity: the number of `--verbose` flags less the number
/// of `--quiet` flags. Nothing is said of warnings by default.
pub open spec fn level_for(verbosity: int) -> LogLevel {
    if verbosity < -1 {
        LogLevel::Off
    } else if verbosity == -1 {
        LogLevel::Error
    } else if verbosity == 0 {
        LogLevel::Warn
    } else if verbosity == 1 {
        LogLevel::Info
    } else if verbosity == 2 {
        LogLevel::Debug
    } else {
        LogLevel::Trace
    }
}

/// The level after `verbose` uses of `--verbose` and `quiet` uses of
/// `--quiet`.
pub fn log_level(verbose: u64, quiet: u64) -> (r: LogLevel)
    ensures
        r == level_for(verbose - quiet),
{
    if verbose >= quiet {
        let up = verbose - quiet;
        if up == 0 {
            LogLevel::Warn
        } else if up == 1 {
            LogLevel::Info
        } else if up == 2 {
            LogLevel::Debug
        } else {
            LogLevel::Trace
        }
    } else if quiet - verbose == 1 {
        LogLevel::Error
    } else {
        LogLevel::Off
    }
}

} // verus!
