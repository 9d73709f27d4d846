//! Capacity model of the fixed-size worker pool.
//!
//! The pool coordinates admission control for the sorters: a caller checks
//! availability, reserves a worker for an offloaded half, and releases it
//! after joining the result.  Reservation is an explicit `try_reserve`, so
//! the capacity bound is exact rather than a racy check-then-submit
//! heuristic.  Running the reserved work on an operating-system thread is
//! the embedding program's business; every sorting decision made against
//! this model is verified here.

use vstd::prelude::*;

verus! {

/// A fixed set of workers, of which `available` are currently idle.
pub struct ThreadPool {
    size: usize,
    available: usize,
}

impl ThreadPool {
    /// Number of workers the pool was created with.
    pub closed spec fn spec_size(&self) -> nat {
        self.size as nat
    }

    /// Number of workers currently idle.
    pub closed spec fn spec_available(&self) -> nat {
        self.available as nat
    }

    /// At no point are more workers idle than exist.
    pub open spec fn wf(&self) -> bool {
        self.spec_available() <= self.spec_size()
    }

    /// Creates a pool of `size` workers, all initially idle.  A pool of
    /// zero workers is a logic error.
    pub fn new(size: usize) -> (pool: ThreadPool)
        requires
            size >= 1,
        ensures
            pool.wf(),
            pool.spec_size() == size,
            pool.spec_available() == size,
    {
        ThreadPool { size, available: size }
    }

    /// Reports the pool's fixed worker count.
    pub fn size(&self) -> (n: usize)
        ensures
            n == self.spec_size(),
    {
        self.size
    }

    /// Counts the idle workers.
    pub fn available_workers(&self) -> (n: usize)
        ensures
            n == self.spec_available(),
    {
        self.available
    }

    /// True when at least one worker is idle.
    pub fn is_available(&self) -> (b: bool)
        ensures
            b == (self.spec_available() > 0),
    {
        self.available > 0
    }

    /// Takes one worker if any is idle; reports whether one was taken.
    pub fn try_reserve(&mut self) -> (reserved: bool)
        requires
            old(self).wf(),
        ensures
            final(self).wf(),
            final(self).spec_size() == old(self).spec_size(),
            reserved == (old(self).spec_available() > 0),
            final(self).spec_available() == if reserved {
                old(self).spec_available() - 1
            } else {
                old(self).spec_available() as int
            },
    {
        if self.available > 0 {
            self.available = self.available - 1;
            true
        } else {
            false
        }
    }

    /// Returns a previously reserved worker to the idle set.
    pub fn release(&mut self)
        requires
            old(self).wf(),
            old(self).spec_available() < old(self).spec_size(),
        ensures
            final(self).wf(),
            final(self).spec_size() == old(self).spec_size(),
            final(self).spec_available() == old(self).spec_available() + 1,
    {
        self.available = self.available + 1;
    }
}

} // verus!
