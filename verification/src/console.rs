//! The firmware debug console endpoint.

use vstd::prelude::*;

verus! {

/// Marker for the firmware debug console. All boot diagnostics go to it,
/// line by line; the firmware call that carries the bytes out is performed
/// by the surrounding program, which retries until the whole line is
/// written.
#[derive(Clone, Copy)]
pub struct DebugConsole;

impl DebugConsole {
    /// How far the write cursor moves: the count the firmware reported,
    /// clamped to what was left of the line, so the cursor never overshoots.
    pub fn advance(remaining: usize, written: usize) -> (r: usize)
        ensures
            r == if written <= remaining {
                written as int
            } else {
                remaining as int
            },
            r <= remaining,
    {
        if written <= remaining {
            written
        } else {
            remaining
        }
    }
}

} // verus!
