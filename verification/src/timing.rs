//! Verdict on how long a test body took against its time budget.

use vstd::prelude::*;

verus! {

/// Default time budget of a test, in seconds.
pub const DEFAULT_TIMEOUT_SECS: u64 = 10;

/// How a run compares with its time budget.
#[derive(Debug, Clone, Copy, PartialEq, Eq, Structural)]
pub enum TimingVerdict {
    /// Within half the budget.
    Fast,
    /// Over half the budget but within it: worth a warning.
    Slow,
    /// Over the budget: the run fails.
    TooSlow,
}

/// Verdict for a run of `elapsed_nanos` against a budget of `timeout_nanos`
/// (half the budget rounded down to whole nanoseconds, as `Duration / 2`).
pub fn timing_verdict(elapsed_nanos: u128, timeout_nanos: u128) -> (v: TimingVerdict)
    ensures
        v == TimingVerdict::TooSlow <==> elapsed_nanos > timeout_nanos,
        v == TimingVerdict::Slow <==> elapsed_nanos <= timeout_nanos && elapsed_nanos > timeout_nanos / 2,
        v == TimingVerdict::Fast <==> elapsed_nanos <= timeout_nanos / 2,
{
    if elapsed_nanos > timeout_nanos {
        TimingVerdict::TooSlow
    } else if elapsed_nanos > timeout_nanos / 2 {
        TimingVerdict::Slow
    } else {
        TimingVerdict::Fast
    }
}

} // verus!
