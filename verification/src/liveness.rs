//! Liveness deadline tracking for one peer.
//!
//! A probe with no answer within a bounded interval is a liveness
//! failure and grounds for disconnection. The tracker remembers when the
//! oldest unanswered probe was sent; the caller supplies the clock as a
//! plain tick count, so the decision itself is checked here while the
//! clock and the disconnect stay with the connection's owner.

use vstd::prelude::*;

verus! {

/// When the oldest unanswered liveness probe of one peer was sent, if
/// any probe is outstanding.
pub struct LivenessTracker {
    outstanding_since: Option<u64>,
}

impl View for LivenessTracker {
    type V = Option<u64>;

    closed spec fn view(&self) -> Option<u64> {
        self.outstanding_since
    }
}

impl LivenessTracker {
    /// No probe is outstanding at first.
    pub fn new() -> (r: Self)
        ensures
            r@ is None,
    {
        LivenessTracker { outstanding_since: None }
    }

    /// Records that a probe was sent at `now`. An already outstanding
    /// probe keeps its earlier send time: the deadline runs from the
    /// oldest unanswered probe.
    pub fn probe_sent(&mut self, now: u64)
        ensures
            old(self)@ is None ==> final(self)@ == Some(now),
            old(self)@ is Some ==> final(self)@ == old(self)@,
    {
        if self.outstanding_since.is_none() {
            self.outstanding_since = Some(now);
        }
    }

    /// Records that the peer answered: nothing is outstanding any more.
    pub fn pong_received(&mut self)
        ensures
            final(self)@ is None,
    {
        self.outstanding_since = None;
    }

    /// Whether the oldest unanswered probe has waited longer than
    /// `deadline` ticks at time `now`. A clock that moved backwards
    /// counts as not overdue.
    pub fn is_overdue(&self, now: u64, deadline: u64) -> (r: bool)
        ensures
            r == match self@ {
                Some(t) => now >= t && now - t > deadline,
                None => false,
            },
    {
        match self.outstanding_since {
            Some(t) => now >= t && now - t > deadline,
            None => false,
        }
    }
}

} // verus!
