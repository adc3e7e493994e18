//! Frontier scheduler: a priority-ordered work queue of (value, depth) pairs
//! with a visited set that keeps any value from being enqueued twice.

use vstd::prelude::*;

verus! {

/// A number under consideration together with the number of
/// digit-factorization steps taken to reach it from a seed.
#[derive(Clone, Copy, PartialEq, Eq, Structural, Debug)]
pub struct Candidate {
    pub value: u64,
    pub depth: u32,
}

/// Strictly higher priority: deeper chains first, then smaller values.
pub open spec fn prio_gt(a: Candidate, b: Candidate) -> bool {
    a.depth > b.depth || (a.depth == b.depth && a.value < b.value)
}

/// At least as high a priority.
pub open spec fn prio_ge(a: Candidate, b: Candidate) -> bool {
    a.depth > b.depth || (a.depth == b.depth && a.value <= b.value)
}

/// The index the scheduler pops next: the first candidate that no later
/// candidate strictly beats.
pub open spec fn best_index_of(s: Seq<Candidate>) -> int
    decreases s.len(),
{
    if s.len() <= 1 {
        0
    } else {
        let j = best_index_of(s.drop_last());
        if prio_gt(s.last(), s[j]) {
            s.len() - 1
        } else {
            j
        }
    }
}

/// The popped index is in range.
pub proof fn lemma_best_index_in_range(s: Seq<Candidate>)
    requires
        s.len() >= 1,
    ensures
        0 <= best_index_of(s) < s.len(),
    decreases s.len(),
{
    if s.len() > 1 {
        lemma_best_index_in_range(s.drop_last());
    }
}

/// The popped candidate has the highest priority in the queue.
pub proof fn lemma_best_index_is_best(s: Seq<Candidate>)
    requires
        s.len() >= 1,
    ensures
        forall|k: int| 0 <= k < s.len() ==> prio_ge(s[best_index_of(s)], #[trigger] s[k]),
    decreases s.len(),
{
    if s.len() > 1 {
        lemma_best_index_is_best(s.drop_last());
        lemma_best_index_in_range(s.drop_last());
        assert(forall|k: int| 0 <= k < s.len() - 1 ==> s.drop_last()[k] == s[k]);
    }
}

/// The frontier: the not-yet-expanded candidates, and every value ever
/// enqueued.  Both only ever grow with the search (the queue loses only
/// popped entries); the visited set makes enqueued values unique.
pub struct Frontier {
    pub items: Vec<Candidate>,
    pub visited: Vec<u64>,
}

impl Frontier {
    /// Every queued value has been recorded as visited, and no value is
    /// queued twice.
    pub open spec fn wf(self) -> bool {
        &&& forall|i: int|
            0 <= i < self.items@.len() ==> self.visited@.contains(
                #[trigger] self.items@[i].value,
            )
        &&& forall|i: int, j: int|
            0 <= i < j < self.items@.len() ==> (#[trigger] self.items@[i]).value != (
            #[trigger] self.items@[j]).value
    }

    pub fn new() -> (f: Frontier)
        ensures
            f.items@ == Seq::<Candidate>::empty(),
            f.visited@ == Seq::<u64>::empty(),
            f.wf(),
    {
        Frontier { items: Vec::new(), visited: Vec::new() }
    }

    /// Whether a value was ever enqueued.
    pub fn seen(&self, v: u64) -> (b: bool)
        ensures
            b == self.visited@.contains(v),
    {
        let mut i: usize = 0;
        while i < self.visited.len()
            invariant
                0 <= i <= self.visited@.len(),
                forall|k: int| 0 <= k < i ==> self.visited@[k] != v,
            decreases self.visited@.len() - i,
        {
            if self.visited[i] == v {
                return true;
            }
            i = i + 1;
        }
        false
    }

    /// Enqueues a candidate unless its value was already enqueued at any
    /// depth (it has been or will be explored no later than this push would
    /// reach it).
    pub fn push(&mut self, c: Candidate)
        ensures
            old(self).visited@.contains(c.value) ==> (final (self).items@ == old(self).items@
                && final (self).visited@ == old(self).visited@),
            !old(self).visited@.contains(c.value) ==> (final (self).items@ == old(
                self,
            ).items@.push(c) && final (self).visited@ == old(self).visited@.push(c.value)),
            old(self).wf() ==> final (self).wf(),
    {
        if !self.seen(c.value) {
            self.items.push(c);
            self.visited.push(c.value);
            proof {
                if old(self).wf() {
                    assert(forall|i: int|
                        0 <= i < old(self).items@.len() ==> self.items@[i] == old(
                            self,
                        ).items@[i]);
                    assert(forall|k: int|
                        0 <= k < old(self).visited@.len() ==> self.visited@[k] == old(
                            self,
                        ).visited@[k]);
                    assert(forall|i: int|
                        0 <= i < self.items@.len() ==> self.visited@.contains(
                            #[trigger] self.items@[i].value,
                        )) by {
                        assert forall|i: int| 0 <= i < self.items@.len() implies self
                            .visited@.contains(#[trigger] self.items@[i].value) by {
                            if i < old(self).items@.len() {
                                let k = choose|k: int|
                                    0 <= k < old(self).visited@.len() && old(
                                        self,
                                    ).visited@[k] == old(self).items@[i].value;
                                assert(self.visited@[k] == self.items@[i].value);
                            } else {
                                assert(self.visited@[self.visited@.len() - 1] == c.value);
                            }
                        }
                    }
                }
            }
        }
    }

    /// Removes and returns the highest-priority candidate: greatest depth
    /// first, smallest value among those, earliest entry among equal pairs.
    pub fn pop(&mut self) -> (r: Option<Candidate>)
        ensures
            final (self).visited@ == old(self).visited@,
            old(self).items@.len() == 0 ==> r is None && final (self).items@ == old(self).items@,
            old(self).items@.len() > 0 ==> {
                let i = best_index_of(old(self).items@);
                &&& r == Some(old(self).items@[i])
                &&& final (self).items@ == old(self).items@.remove(i)
            },
            old(self).wf() ==> final (self).wf(),
    {
        if self.items.len() == 0 {
            return None;
        }
        proof {
            lemma_best_index_in_range(self.items@);
        }
        let ghost s = self.items@;
        let mut best: usize = 0;
        let mut i: usize = 1;
        proof {
            assert(s.take(1) =~= seq![s[0]]);
        }
        while i < self.items.len()
            invariant
                1 <= i <= s.len(),
                s == self.items@,
                0 <= best < i,
                best as int == best_index_of(s.take(i as int)),
            decreases s.len() - i,
        {
            proof {
                assert(s.take(i + 1).drop_last() =~= s.take(i as int));
                assert(s.take(i + 1).last() == s[i as int]);
                lemma_best_index_in_range(s.take(i as int));
            }
            if prio_gt_exec(&self.items[i], &self.items[best]) {
                best = i;
            }
            i = i + 1;
        }
        proof {
            assert(s.take(s.len() as int) =~= s);
        }
        let c = self.items.remove(best);
        proof {
            if old(self).wf() {
                let b = best as int;
                assert(forall|k: int|
                    0 <= k < self.items@.len() ==> self.items@[k] == (if k < b {
                        old(self).items@[k]
                    } else {
                        old(self).items@[k + 1]
                    }));
            }
        }
        Some(c)
    }
}

/// Compares two candidates by depth, then by smaller value.
fn prio_gt_exec(a: &Candidate, b: &Candidate) -> (r: bool)
    ensures
        r == prio_gt(*a, *b),
{
    a.depth > b.depth || (a.depth == b.depth && a.value < b.value)
}

/// The seed candidates: the single digits 1 through 9, at depth 0.
pub open spec fn seeds() -> Seq<Candidate> {
    Seq::new(9, |i: int| Candidate { value: (i + 1) as u64, depth: 0 })
}

/// Primes the frontier with the seed candidates, all marked visited.
pub fn initial_queue() -> (f: Frontier)
    ensures
        f.items@ == seeds(),
        f.visited@ == seeds().map_values(|c: Candidate| c.value),
        f.wf(),
{
    let mut f = Frontier::new();
    let mut v: u64 = 1;
    while v <= 9
        invariant
            1 <= v <= 10,
            f.items@ == seeds().take(v - 1),
            f.visited@ == seeds().map_values(|c: Candidate| c.value).take(v - 1),
            f.wf(),
        decreases 10 - v,
    {
        proof {
            if f.visited@.contains(v) {
                let k = choose|k: int| 0 <= k < f.visited@.len() && f.visited@[k] == v;
                assert(f.visited@[k] == seeds()[k].value);
                assert(false);
            }
        }
        f.push(Candidate { value: v, depth: 0 });
        proof {
            assert(f.items@ =~= seeds().take(v as int));
            assert(f.visited@ =~= seeds().map_values(|c: Candidate| c.value).take(v as int));
        }
        v = v + 1;
    }
    proof {
        assert(seeds().take(9) =~= seeds());
        assert(seeds().map_values(|c: Candidate| c.value).take(9) =~= seeds().map_values(
            |c: Candidate| c.value,
        ));
    }
    f
}

} // verus!
