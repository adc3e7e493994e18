//! Record tracker and reporter: observes the popped candidates in priority
//! order and decides what a progress line should show.  Its decisions never
//! affect the search beyond its own bookkeeping.

use vstd::prelude::*;
use crate::scheduler::Candidate;

verus! {

/// What to print for one observed candidate.
#[derive(Clone, Copy, PartialEq, Eq, Structural, Debug)]
pub enum Report {
    /// A new deepest chain, or a smaller value at the current deepest chain.
    Record { depth: u32, value: u64 },
    /// A status line: the best record so far beside the current candidate.
    Status { best_depth: u32, best_value: u64, depth: u32, value: u64 },
    /// Nothing worth showing.
    Silent,
}

/// Best-record state: the greatest depth seen, the smallest value observed
/// at that depth, and the depth last reported.  Initialized so that the very
/// first candidate is always reported.
#[derive(Clone, Copy, PartialEq, Eq, Structural, Debug)]
pub struct RecordTracker {
    pub greatest: u64,
    pub greatest_depth: u32,
    pub last_shown: u32,
}

/// The state after observing one candidate.
pub open spec fn tracker_after(t: RecordTracker, c: Candidate) -> RecordTracker {
    if c.depth > t.greatest_depth {
        RecordTracker { greatest: c.value, greatest_depth: c.depth, last_shown: c.depth }
    } else if c.depth == t.greatest_depth && c.value < t.greatest {
        RecordTracker { greatest: c.value, greatest_depth: t.greatest_depth, last_shown: c.depth }
    } else if c.depth <= t.last_shown {
        RecordTracker { greatest: t.greatest, greatest_depth: t.greatest_depth, last_shown: c.depth }
    } else {
        t
    }
}

/// What observing one candidate reports.
pub open spec fn report_of(t: RecordTracker, c: Candidate) -> Report {
    if c.depth > t.greatest_depth {
        Report::Record { depth: c.depth, value: c.value }
    } else if c.depth == t.greatest_depth && c.value < t.greatest {
        Report::Record { depth: c.depth, value: c.value }
    } else if c.depth <= t.last_shown {
        Report::Status {
            best_depth: t.greatest_depth,
            best_value: t.greatest,
            depth: c.depth,
            value: c.value,
        }
    } else {
        Report::Silent
    }
}

impl RecordTracker {
    pub fn new() -> (t: RecordTracker)
        ensures
            t.greatest == u64::MAX,
            t.greatest_depth == 0,
            t.last_shown == u32::MAX,
    {
        RecordTracker { greatest: u64::MAX, greatest_depth: 0, last_shown: u32::MAX }
    }

    /// Observes the next candidate in priority order: a strictly deeper chain
    /// or a smaller value at the deepest chain becomes the new record and is
    /// reported; a candidate at or below the depth last reported yields a
    /// status line; anything else is suppressed as redundant noise.  The
    /// greatest depth seen never decreases.
    pub fn observe(&mut self, c: Candidate) -> (r: Report)
        ensures
            *final (self) == tracker_after(*old(self), c),
            r == report_of(*old(self), c),
            final (self).greatest_depth >= old(self).greatest_depth,
    {
        if c.depth > self.greatest_depth {
            self.greatest_depth = c.depth;
            self.greatest = c.value;
            self.last_shown = c.depth;
            Report::Record { depth: c.depth, value: c.value }
        } else if c.depth == self.greatest_depth && c.value < self.greatest {
            self.greatest = c.value;
            self.last_shown = c.depth;
            Report::Record { depth: c.depth, value: c.value }
        } else if c.depth <= self.last_shown {
            let r = Report::Status {
                best_depth: self.greatest_depth,
                best_value: self.greatest,
                depth: c.depth,
                value: c.value,
            };
            self.last_shown = c.depth;
            r
        } else {
            Report::Silent
        }
    }
}

/// One observation never lowers the greatest depth on record.
pub proof fn lemma_greatest_depth_monotone(t: RecordTracker, c: Candidate)
    ensures
        tracker_after(t, c).greatest_depth >= t.greatest_depth,
{
}

/// The state after observing a whole run of candidates in order.
pub open spec fn tracker_run(t: RecordTracker, cs: Seq<Candidate>) -> RecordTracker
    decreases cs.len(),
{
    if cs.len() == 0 {
        t
    } else {
        tracker_after(tracker_run(t, cs.drop_last()), cs.last())
    }
}

/// Once the greatest depth on record reaches a value, no later observation
/// in the run lowers it.
pub proof fn lemma_run_depth_monotone(t: RecordTracker, cs: Seq<Candidate>)
    ensures
        tracker_run(t, cs).greatest_depth >= t.greatest_depth,
    decreases cs.len(),
{
    if cs.len() > 0 {
        lemma_run_depth_monotone(t, cs.drop_last());
    }
}

} // verus!
