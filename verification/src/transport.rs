//! What transports share: the answer for operations that one lacks, and the
//! polling of a batch.
use vstd::prelude::*;

use crate::error::ClaudeError;
use crate::types::batch::{BatchResponse, BatchStatus};

verus! {

broadcast use vstd::string::group_string_axioms;

/// How long a batch is polled at most, in milliseconds: one day.
pub const POLL_TIMEOUT_MS: u64 = 86_400_000;

/// The answer of a transport that lacks an operation.
pub fn unsupported(operation: &str) -> (r: ClaudeError)
    ensures
        r.is_unsupported(operation@),
{
    ClaudeError::Unsupported(operation.to_owned())
}

/// How often a batch is polled at most, with this many milliseconds between
/// two polls.
pub open spec fn max_polls(interval_ms: int) -> int {
    POLL_TIMEOUT_MS as int / if interval_ms < 1 {
        1
    } else {
        interval_ms
    }
}

/// How often a batch is polled at most.
pub fn poll_limit(interval_ms: u128) -> (r: u64)
    ensures
        r == max_polls(interval_ms as int),
{
    if interval_ms < 1 {
        return POLL_TIMEOUT_MS;
    }
    if interval_ms > 86_400_000 {
        proof {
            assert(86_400_000int / (interval_ms as int) == 0) by (nonlinear_arith)
                requires
                    interval_ms > 86_400_000,
            ;
        }
        return 0;
    }
    let ms: u64 = interval_ms as u64;
    POLL_TIMEOUT_MS / ms
}

/// What a poller does next.
#[derive(Debug)]
pub enum PollStep {
    /// Retrieve the batch.
    Retrieve,
    /// Wait, then ask again what to do.
    Wait,
    /// Hand out the batch.
    Done(BatchResponse),
    /// Give up.
    GiveUp(ClaudeError),
}

/// What a poller does after `polls` polls: it retrieves the batch again, or
/// gives up.
pub fn before_poll(batch_id: &str, polls: u64, limit: u64) -> (r: PollStep)
    ensures
        polls < limit ==> r is Retrieve,
        polls >= limit ==> (r matches PollStep::GiveUp(ClaudeError::BatchTimeout { batch_id: id })
            && id@ == batch_id@),
{
    if polls < limit {
        PollStep::Retrieve
    } else {
        PollStep::GiveUp(ClaudeError::BatchTimeout { batch_id: batch_id.to_owned() })
    }
}

/// What a poller does with a batch that it retrieved.
pub fn after_poll(batch: BatchResponse) -> (r: PollStep)
    ensures
        batch.processing_status == BatchStatus::Ended ==> r == PollStep::Done(batch),
        batch.processing_status != BatchStatus::Ended ==> r is Wait,
{
    if batch.processing_status == BatchStatus::Ended {
        PollStep::Done(batch)
    } else {
        PollStep::Wait
    }
}

/// How often a batch is retrieved, where the `n`th time finds it in
/// `states(n)`, and whether it ended in time. `polls` polls were made before.
pub open spec fn polled(states: spec_fn(int) -> BatchStatus, limit: int, polls: int) -> (int, bool)
    decreases limit - polls,
{
    if polls >= limit {
        (polls, false)
    } else if states(polls + 1) == BatchStatus::Ended {
        (polls + 1, true)
    } else {
        polled(states, limit, polls + 1)
    }
}

/// A batch is polled until it has ended, but no more often than it may be.
pub proof fn law_polls_are_bounded(states: spec_fn(int) -> BatchStatus, limit: int, polls: int)
    requires
        0 <= polls <= limit,
    ensures
        ({
            let (n, ended) = polled(states, limit, polls);
            &&& polls <= n <= limit
            &&& forall|k: int| polls < k < n ==> #[trigger] states(k) != BatchStatus::Ended
            &&& ended ==> n > polls && states(n) == BatchStatus::Ended
            &&& !ended ==> n == limit && (n > polls ==> states(n) != BatchStatus::Ended)
        }),
    decreases limit - polls,
{
    if polls < limit && states(polls + 1) != BatchStatus::Ended {
        law_polls_are_bounded(states, limit, polls + 1);
        let (n, ended) = polled(states, limit, polls + 1);
        assert forall|k: int| polls < k < n implies #[trigger] states(k) != BatchStatus::Ended by {
            if k > polls + 1 {
                assert(polls + 1 < k);
            }
        }
    }
}

/// The waits between the polls of a batch never take more than a day.
pub proof fn law_polling_takes_a_day_at_most(interval_ms: int)
    requires
        interval_ms >= 1,
    ensures
        max_polls(interval_ms) * interval_ms <= POLL_TIMEOUT_MS,
        interval_ms <= POLL_TIMEOUT_MS ==> max_polls(interval_ms) >= 1,
{
    let d = POLL_TIMEOUT_MS as int;
    assert((d / interval_ms) * interval_ms <= d) by (nonlinear_arith)
        requires
            interval_ms >= 1,
            d >= 0,
    ;
    if interval_ms <= d {
        assert(d / interval_ms >= 1) by (nonlinear_arith)
            requires
                1 <= interval_ms <= d,
        ;
    }
}

/// A batch is polled as often as a day allows: one more poll would be too
/// late. An interval of nothing counts as a millisecond.
pub proof fn law_polling_goes_on_for_a_day(interval_ms: int)
    ensures
        interval_ms >= 1 ==> (max_polls(interval_ms) + 1) * interval_ms > 86_400_000,
        interval_ms < 1 ==> max_polls(interval_ms) == 86_400_000,
{
    if interval_ms >= 1 {
        let d = 86_400_000int;
        assert((d / interval_ms + 1) * interval_ms > d) by (nonlinear_arith)
            requires
                interval_ms >= 1,
                d >= 0,
        ;
    }
}

} // verus!
