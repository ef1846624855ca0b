//! Spacing of outgoing requests.
use vstd::prelude::*;

verus! {

/// When the next request may go out: `delay` after the previous one, and not before `now`.
pub open spec fn next_slot(last: Option<u64>, delay: u64, now: u64) -> int {
    match last {
        Some(t) => if t + delay > now {
            t + delay
        } else {
            now as int
        },
        None => now as int,
    }
}

/// The time slot given to the last request and the spacing to keep. Times are
/// nanoseconds on a monotonic clock.
#[derive(Debug, Clone, Copy, PartialEq, Eq)]
pub struct RequestSpacing {
    pub last_request: Option<u64>,
    pub delay: u64,
}

impl RequestSpacing {
    /// No request made yet.
    pub fn new(delay: u64) -> (s: Self)
        ensures
            s.last_request is None,
            s.delay == delay,
    {
        RequestSpacing { last_request: None, delay }
    }

    /// Book the slot of a request asked for at `now`; returns how long to wait for it.
    pub fn reserve(&mut self, now: u64) -> (wait: u64)
        requires
            old(self).last_request matches Some(t) ==> t + old(self).delay <= u64::MAX,
        ensures
            final(self).delay == old(self).delay,
            final(self).last_request matches Some(s) && s == next_slot(
                old(self).last_request,
                old(self).delay,
                now,
            ),
            wait == next_slot(old(self).last_request, old(self).delay, now) - now,
    {
        let slot = match self.last_request {
            Some(t) => if t + self.delay > now {
                t + self.delay
            } else {
                now
            },
            None => now,
        };
        self.last_request = Some(slot);
        slot - now
    }
}

/// Requests are spaced: a slot is never earlier than its request, and the slot booked
/// after another is at least `delay` later.
pub proof fn lemma_requests_spaced(last: Option<u64>, delay: u64, now1: u64, now2: u64)
    requires
        next_slot(last, delay, now1) <= u64::MAX,
    ensures
        next_slot(last, delay, now1) >= now1,
        next_slot(Some(next_slot(last, delay, now1) as u64), delay, now2) >= next_slot(
            last,
            delay,
            now1,
        ) + delay,
        next_slot(Some(next_slot(last, delay, now1) as u64), delay, now2) >= now2,
{
}

} // verus!
