//! Training throughput accounting: a line counter that says when a progress
//! sample is due. Timing and display stay with the caller.

use vstd::prelude::*;

verus! {

/// One progress sample: how many lines were seen, and when.
pub struct Sample {
    pub duration_ms: u64,
    pub count: u64,
}

/// The counter behind the progress display.
pub struct Stats {
    count: u64,
    sample_rate: u64,
    sampling: bool,
}

impl Stats {
    pub fn new(sample_rate: u64) -> (r: Stats)
        requires
            sample_rate >= 1,
        ensures
            r.count() == 0,
            r.rate() == sample_rate,
            r.is_sampling(),
    {
        Stats { count: 0, sample_rate, sampling: true }
    }

    pub closed spec fn count(&self) -> u64 {
        self.count
    }

    pub closed spec fn rate(&self) -> u64 {
        self.sample_rate
    }

    pub closed spec fn is_sampling(&self) -> bool {
        self.sampling
    }

    /// Count one line; say whether a sample is due now. A sample is due at
    /// every `sample_rate`-th line once the rate was reached, while
    /// sampling is on.
    pub fn tick(&mut self) -> (emit: bool)
        requires
            old(self).rate() >= 1,
        ensures
            final(self).count() == if old(self).count() < u64::MAX {
                old(self).count() + 1
            } else {
                old(self).count() as int
            },
            final(self).rate() == old(self).rate(),
            final(self).is_sampling() == old(self).is_sampling(),
            emit == (old(self).is_sampling() && old(self).count() >= old(self).rate() && old(
                self,
            ).count() % old(self).rate() == 0),
    {
        let seen = self.count;
        if self.count < u64::MAX {
            self.count = self.count + 1;
        }
        self.sampling && seen >= self.sample_rate && seen % self.sample_rate == 0
    }

    /// Stop asking for samples (the display is gone).
    pub fn disable(&mut self)
        ensures
            !final(self).is_sampling(),
            final(self).count() == old(self).count(),
            final(self).rate() == old(self).rate(),
    {
        self.sampling = false;
    }

    /// Finish: the final sample, with the elapsed time the caller measured.
    pub fn done(self, duration_ms: u64) -> (s: Sample)
        ensures
            s.count == self.count(),
            s.duration_ms == duration_ms,
    {
        Sample { duration_ms, count: self.count }
    }
}

} // verus!
