//! Aggregation of per-entry outcomes: a failure is counted, never fatal.
use vstd::prelude::*;

verus! {

/// How many of a known number of entries were handled, and how many of
/// those failed.
pub struct Tally {
    pub total: usize,
    pub done: usize,
    pub failed: usize,
}

/// The number of failures among `s`.
pub open spec fn failures(s: Seq<bool>) -> nat
    decreases s.len(),
{
    if s.len() == 0 {
        0
    } else {
        failures(s.drop_last()) + if s.last() {
            0nat
        } else {
            1nat
        }
    }
}

impl Tally {
    /// Counts never pass the total, and failures never pass what was done.
    pub open spec fn wf(&self) -> bool {
        self.done <= self.total && self.failed <= self.done
    }

    /// A tally of `total` entries, none handled yet.
    pub fn new(total: usize) -> (r: Tally)
        ensures
            r.wf(),
            r.total == total,
            r.done == 0,
            r.failed == 0,
    {
        Tally { total, done: 0, failed: 0 }
    }

    /// Records the outcome of one more entry.
    pub fn record(&mut self, ok: bool)
        requires
            old(self).wf(),
            old(self).done < old(self).total,
        ensures
            final(self).wf(),
            final(self).total == old(self).total,
            final(self).done == old(self).done + 1,
            final(self).failed == old(self).failed + if ok {
                0int
            } else {
                1int
            },
    {
        self.done = self.done + 1;
        if !ok {
            self.failed = self.failed + 1;
        }
    }

    /// Every entry has been handled.
    pub fn is_finished(&self) -> (r: bool)
        ensures
            r == (self.done == self.total),
    {
        self.done == self.total
    }
}

/// Tallies the outcomes of a whole run, one per entry: every entry is
/// counted as handled whatever failed before it, and the failures are
/// exactly the `false` outcomes.
pub fn tally(outcomes: &Vec<bool>) -> (r: Tally)
    ensures
        r.wf(),
        r.total == outcomes@.len(),
        r.done == outcomes@.len(),
        r.failed == failures(outcomes@),
{
    let mut t = Tally::new(outcomes.len());
    let mut i: usize = 0;
    while i < outcomes.len()
        invariant
            i <= outcomes@.len(),
            t.wf(),
            t.total == outcomes@.len(),
            t.done == i,
            t.failed == failures(outcomes@.subrange(0, i as int)),
        decreases outcomes@.len() - i,
    {
        assert(outcomes@.subrange(0, i as int + 1).drop_last() =~= outcomes@.subrange(0, i as int));
        t.record(outcomes[i]);
        i = i + 1;
    }
    assert(outcomes@.subrange(0, outcomes@.len() as int) =~= outcomes@);
    t
}

/// A run in which one entry failed and every other succeeded still handles
/// every entry, and counts exactly one failure.
pub proof fn lemma_one_failure_tolerated(s: Seq<bool>, j: int)
    requires
        0 <= j < s.len(),
        !s[j],
        forall|k: int| 0 <= k < s.len() && k != j ==> s[k],
    ensures
        failures(s) == 1,
    decreases s.len(),
{
    if j < s.len() - 1 {
        lemma_one_failure_tolerated(s.drop_last(), j);
    } else {
        lemma_no_failures(s.drop_last());
    }
}

proof fn lemma_no_failures(s: Seq<bool>)
    requires
        forall|k: int| 0 <= k < s.len() ==> s[k],
    ensures
        failures(s) == 0,
    decreases s.len(),
{
    if s.len() > 0 {
        lemma_no_failures(s.drop_last());
    }
}

} // verus!
