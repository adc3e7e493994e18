//! The search loop's verified core: one step pops the highest-priority
//! candidate, lets the record tracker decide what to report, derives every
//! digit-factor predecessor, and enqueues the novel ones at depth + 1.

use vstd::prelude::*;
use crate::factor::factor_combinations;
use crate::factor::outputs_spec;
use crate::scheduler::Candidate;
use crate::scheduler::Frontier;
use crate::scheduler::best_index_of;
use crate::scheduler::initial_queue;
use crate::scheduler::seeds;
use crate::tracker::RecordTracker;
use crate::tracker::Report;
use crate::tracker::report_of;
use crate::tracker::tracker_after;

verus! {

/// The queue and visited set after pushing each derived value in order,
/// skipping the ones already visited.
pub open spec fn pushes_spec(
    items: Seq<Candidate>,
    visited: Seq<u64>,
    vals: Seq<u64>,
    depth: u32,
) -> (Seq<Candidate>, Seq<u64>)
    decreases vals.len(),
{
    if vals.len() == 0 {
        (items, visited)
    } else {
        let prev = pushes_spec(items, visited, vals.drop_last(), depth);
        let v = vals.last();
        if prev.1.contains(v) {
            prev
        } else {
            (prev.0.push(Candidate { value: v, depth }), prev.1.push(v))
        }
    }
}

/// The whole search state: frontier plus best-record tracker.
pub struct Search {
    pub frontier: Frontier,
    pub tracker: RecordTracker,
}

impl Search {
    /// A fresh search, seeded with the digits 1 through 9 at depth 0.
    pub fn new() -> (s: Search)
        ensures
            s.frontier.items@ == seeds(),
            s.frontier.visited@ == seeds().map_values(|c: Candidate| c.value),
            s.frontier.wf(),
            s.tracker == (RecordTracker {
                greatest: u64::MAX,
                greatest_depth: 0,
                last_shown: u32::MAX,
            }),
    {
        Search { frontier: initial_queue(), tracker: RecordTracker::new() }
    }

    /// One search step.  Returns `None` when the frontier is exhausted;
    /// otherwise pops the best candidate, reports it, and enqueues its novel
    /// digit-factor predecessors one step deeper.  At the greatest
    /// representable depth no successors are enqueued, so the step never
    /// overflows the depth counter.
    pub fn step(&mut self) -> (r: Option<Report>)
        ensures
            old(self).frontier.items@.len() == 0 ==> {
                &&& r is None
                &&& final (self).frontier.items@ == old(self).frontier.items@
                &&& final (self).frontier.visited@ == old(self).frontier.visited@
                &&& final (self).tracker == old(self).tracker
            },
            old(self).frontier.items@.len() > 0 ==> {
                let c = old(self).frontier.items@[best_index_of(old(self).frontier.items@)];
                let popped = old(self).frontier.items@.remove(
                    best_index_of(old(self).frontier.items@),
                );
                &&& r == Some(report_of(old(self).tracker, c))
                &&& final (self).tracker == tracker_after(old(self).tracker, c)
                &&& c.depth < u32::MAX ==> {
                    let after = pushes_spec(
                        popped,
                        old(self).frontier.visited@,
                        outputs_spec(c.value),
                        (c.depth + 1) as u32,
                    );
                    final (self).frontier.items@ == after.0 && final (self).frontier.visited@
                        == after.1
                }
                &&& c.depth == u32::MAX ==> final (self).frontier.items@ == popped && final (
                self).frontier.visited@ == old(self).frontier.visited@
            },
            old(self).frontier.wf() ==> final (self).frontier.wf(),
    {
        let popped = self.frontier.pop();
        match popped {
            None => None,
            Some(c) => {
                let report = self.tracker.observe(c);
                if c.depth < u32::MAX {
                    let vals = factor_combinations(c.value);
                    let depth = c.depth + 1;
                    let ghost base_items = self.frontier.items@;
                    let ghost base_visited = self.frontier.visited@;
                    let ghost vs = vals@;
                    let mut j: usize = 0;
                    proof {
                        assert(vs.take(0) =~= Seq::<u64>::empty());
                    }
                    while j < vals.len()
                        invariant
                            0 <= j <= vs.len(),
                            vs == vals@,
                            pushes_spec(base_items, base_visited, vs.take(j as int), depth) == (
                            self.frontier.items@, self.frontier.visited@),
                            self.tracker == tracker_after(old(self).tracker, c),
                            old(self).frontier.wf() ==> self.frontier.wf(),
                        decreases vs.len() - j,
                    {
                        proof {
                            assert(vs.take(j + 1).drop_last() =~= vs.take(j as int));
                            assert(vs.take(j + 1).last() == vs[j as int]);
                        }
                        self.frontier.push(Candidate { value: vals[j], depth });
                        j = j + 1;
                    }
                    proof {
                        assert(vs.take(vs.len() as int) =~= vs);
                    }
                }
                Some(report)
            },
        }
    }
}

} // verus!
