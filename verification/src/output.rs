//! The output stage's retry policy.
//!
//! Sink writes may fail transiently; the stage retries with a bounded,
//! capped backoff and, once the attempt limit is exhausted, drops the result
//! with a report rather than blocking the pipeline indefinitely.

use vstd::prelude::*;

verus! {

/// What to do after a failed sink write.
#[derive(Clone, Copy, PartialEq, Eq, Structural, Debug)]
pub enum SinkAction {
    /// Try again after the given delay, in milliseconds.
    Retry(u64),
    /// Stop retrying: report the loss and move on.
    GiveUp,
}

/// The backoff delay for a failed attempt: linear in the number of attempts
/// already made, never above the cap.
pub open spec fn backoff_spec(attempt: u64, base: u64, cap: u64) -> int {
    if base * (attempt + 1) <= cap {
        base * (attempt + 1)
    } else {
        cap as int
    }
}

/// Computes the capped backoff delay after the given failed attempt.
pub fn backoff_delay(attempt: u64, base: u64, cap: u64) -> (d: u64)
    ensures
        d == backoff_spec(attempt, base, cap),
        d <= cap,
{
    let steps: u128 = attempt as u128 + 1;
    proof {
        assert((base as u128) as int * (steps as int)
            < 0x1_0000_0000_0000_0000_0000_0000_0000_0000) by (nonlinear_arith)
            requires
                ((base as u128) as int) < 0x1_0000_0000_0000_0000,
                0 <= (steps as int),
                (steps as int) <= 0x1_0000_0000_0000_0000,
        ;
    }
    let raw: u128 = (base as u128) * steps;
    if raw <= cap as u128 {
        raw as u64
    } else {
        cap
    }
}

/// Decides the stage's next move after a failed write: retry with the
/// capped backoff while attempts remain, give up — exactly — once the
/// configured limit is reached, so no retry loop runs unboundedly.
pub fn next_sink_action(attempt: u64, limit: u64, base: u64, cap: u64) -> (a: SinkAction)
    ensures
        attempt < limit ==> a == SinkAction::Retry(backoff_delay_spec_value(attempt, base, cap)),
        attempt >= limit ==> a == SinkAction::GiveUp,
{
    if attempt < limit {
        SinkAction::Retry(backoff_delay(attempt, base, cap))
    } else {
        SinkAction::GiveUp
    }
}

/// The backoff delay as a `u64`, for speaking about `Retry`'s payload.
pub open spec fn backoff_delay_spec_value(attempt: u64, base: u64, cap: u64) -> u64 {
    backoff_spec(attempt, base, cap) as u64
}

/// Law: every retry loop is bounded. Whatever the attempt history, the
/// decision is `GiveUp` for every attempt at or past the limit, and any
/// delay handed out before that never exceeds the cap.
pub proof fn lemma_retries_bounded(attempt: u64, limit: u64, base: u64, cap: u64)
    ensures
        attempt >= limit ==> next_action_spec(attempt, limit, base, cap) == SinkAction::GiveUp,
        attempt < limit ==> next_action_spec(attempt, limit, base, cap) == SinkAction::Retry(
            backoff_delay_spec_value(attempt, base, cap),
        ) && backoff_spec(attempt, base, cap) <= cap,
{
}

/// The retry decision as a spec-level function.
pub open spec fn next_action_spec(attempt: u64, limit: u64, base: u64, cap: u64) -> SinkAction {
    if attempt < limit {
        SinkAction::Retry(backoff_delay_spec_value(attempt, base, cap))
    } else {
        SinkAction::GiveUp
    }
}

} // verus!
