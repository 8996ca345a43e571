use vstd::prelude::*;

verus! {

/// A countdown latch's bookkeeping. The signals themselves travel over a
/// channel owned by the driver; this records how many arrived and says when
/// the latch has opened.
pub struct Latch {
    count: usize,
}

impl Latch {
    pub closed spec fn spec_count(&self) -> int {
        self.count as int
    }

    pub fn new(count: usize) -> (r: Latch)
        ensures
            r.spec_count() == count as int,
    {
        Latch { count }
    }

    /// Apply `arrived` queued signals: each one lowers the count until it
    /// reaches zero.
    pub fn process_queue(&mut self, arrived: usize)
        ensures
            final(self).spec_count() == if old(self).spec_count() >= arrived as int {
                old(self).spec_count() - arrived as int
            } else {
                0
            },
    {
        self.count = self.count.saturating_sub(arrived);
    }

    /// Apply the queued signals, then count one more down.
    pub fn count_down(&mut self, arrived: usize)
        ensures
            ({
                let after = if old(self).spec_count() >= arrived as int {
                    old(self).spec_count() - arrived as int
                } else {
                    0
                };
                final(self).spec_count() == if after > 0 {
                    after - 1
                } else {
                    0
                }
            }),
    {
        self.process_queue(arrived);
        if self.count > 0 {
            self.count = self.count - 1;
        }
    }

    /// Apply the queued signals and report the remaining count.
    pub fn poll(&mut self, arrived: usize) -> (r: usize)
        ensures
            final(self).spec_count() == r as int,
            r as int == if old(self).spec_count() >= arrived as int {
                old(self).spec_count() - arrived as int
            } else {
                0
            },
    {
        self.process_queue(arrived);
        self.count
    }

    /// One blocking wait step: a signal arrived, the count drops by one;
    /// the wait is over when it reaches zero.
    pub fn wait_step(&mut self) -> (done: bool)
        requires
            old(self).spec_count() > 0,
        ensures
            final(self).spec_count() == old(self).spec_count() - 1,
            done == (final(self).spec_count() == 0),
    {
        self.count = self.count - 1;
        self.count == 0
    }
}

} // verus!
