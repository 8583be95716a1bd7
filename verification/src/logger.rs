//! The filter of the simple console logger.

use vstd::prelude::*;

verus! {

/// The levels of log messages, from the most to the least severe.
#[derive(Debug, Clone, Copy, PartialEq, Eq, Structural)]
pub enum Level {
    Error,
    Warn,
    Info,
    Debug,
    Trace,
}

/// The rank of a level: 1 for errors up to 5 for traces.
pub open spec fn rank(l: Level) -> int {
    match l {
        Level::Error => 1,
        Level::Warn => 2,
        Level::Info => 3,
        Level::Debug => 4,
        Level::Trace => 5,
    }
}

/// Messages up to the debug level are printed; traces are not.
pub fn enabled(level: Level) -> (b: bool)
    ensures
        b == (rank(level) <= rank(Level::Debug)),
{
    match level {
        Level::Trace => false,
        _ => true,
    }
}

} // verus!
