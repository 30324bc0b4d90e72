//! Memory admission control: every mutation of the index first asks a
//! [`MemoryLimiter`] for budget, and logical deletion returns budget
//! through `reclaim`. An [`AllocationRecorder`] is a passive
//! instrumentation hook fired alongside every admission decision.

use vstd::prelude::*;

verus! {

/// Passive instrumentation: notified of every admission decision with
/// the committed total before and after. Implementations must not
/// influence the decision; the index never reads anything back.
pub trait AllocationRecorder: Sized {
    /// Fired when budget is requested; `old_size` is the committed
    /// total before the request, `new_size` the total after it.
    fn record_alloc(&mut self, old_size: usize, new_size: usize);

    /// Fired when budget is returned; `old_size` is the committed
    /// total before the return, `new_size` the total after it.
    fn record_free(&mut self, old_size: usize, new_size: usize);
}

/// Admission control over a byte budget. The committed total
/// (`spec_usage`) moves only as these contracts say: up by exactly the
/// granted amount, down by exactly the reclaimed amount (floored at
/// zero). So the running total of bytes granted minus bytes returned
/// always equals `mem_usage()`.
pub trait MemoryLimiter: Sized {
    /// The committed total in bytes, as contracts see it.
    spec fn spec_usage(&self) -> usize;

    /// Try to reserve `bytes` against the budget. On a grant the
    /// committed total grows by exactly `bytes`; on a denial it is
    /// unchanged. Safe to call at any committed total.
    fn acquire(&mut self, bytes: usize) -> (granted: bool)
        ensures
            granted ==> old(self).spec_usage() + bytes <= usize::MAX
                && final(self).spec_usage() == old(self).spec_usage() + bytes,
            !granted ==> final(self).spec_usage() == old(self).spec_usage(),
    ;

    /// The committed total.
    fn mem_usage(&self) -> (r: usize)
        ensures
            r == self.spec_usage(),
    ;

    /// Return `bytes` of budget. The committed total shrinks by
    /// exactly `bytes`, floored at zero.
    fn reclaim(&mut self, bytes: usize)
        ensures
            final(self).spec_usage() == if bytes <= old(self).spec_usage() {
                (old(self).spec_usage() - bytes) as usize
            } else {
                0usize
            },
    ;
}

/// A limiter with a fixed capacity: grants a request exactly when it
/// fits in the remaining budget.
pub struct BudgetLimiter {
    capacity: usize,
    usage: usize,
}

impl BudgetLimiter {
    /// A limiter that will never let the committed total exceed
    /// `capacity` bytes.
    pub fn new(capacity: usize) -> (r: BudgetLimiter)
        ensures
            r.spec_usage() == 0,
            r.spec_capacity() == capacity,
    {
        BudgetLimiter { capacity, usage: 0 }
    }

    /// The configured budget.
    pub closed spec fn spec_capacity(&self) -> usize {
        self.capacity
    }
}

impl MemoryLimiter for BudgetLimiter {
    closed spec fn spec_usage(&self) -> usize {
        self.usage
    }

    fn acquire(&mut self, bytes: usize) -> (granted: bool)
        ensures
            granted <==> old(self).spec_usage() + bytes <= old(self).spec_capacity(),
            final(self).spec_capacity() == old(self).spec_capacity(),
    {
        if bytes <= self.capacity && self.usage <= self.capacity - bytes {
            self.usage = self.usage + bytes;
            true
        } else {
            false
        }
    }

    fn mem_usage(&self) -> (r: usize) {
        self.usage
    }

    fn reclaim(&mut self, bytes: usize)
        ensures
            final(self).spec_capacity() == old(self).spec_capacity(),
    {
        if bytes <= self.usage {
            self.usage = self.usage - bytes;
        } else {
            self.usage = 0;
        }
    }
}

/// One recorder and one limiter behind a single handle, so the index
/// needs only one injected dependency. Admission decisions are the
/// inner limiter's; the recorder is notified of each one.
pub struct RecorderLimiter<R: AllocationRecorder, M: MemoryLimiter> {
    recorder: R,
    limiter: M,
}

impl<R: AllocationRecorder, M: MemoryLimiter> RecorderLimiter<R, M> {
    /// Composes `recorder` and `limiter`.
    pub fn new(recorder: R, limiter: M) -> (r: RecorderLimiter<R, M>)
        ensures
            r.spec_usage() == limiter.spec_usage(),
    {
        RecorderLimiter { recorder, limiter }
    }
}

impl<R: AllocationRecorder, M: MemoryLimiter> MemoryLimiter for RecorderLimiter<R, M> {
    closed spec fn spec_usage(&self) -> usize {
        self.limiter.spec_usage()
    }

    fn acquire(&mut self, bytes: usize) -> (granted: bool) {
        let before = self.limiter.mem_usage();
        let granted = self.limiter.acquire(bytes);
        let after = self.limiter.mem_usage();
        self.recorder.record_alloc(before, after);
        granted
    }

    fn mem_usage(&self) -> (r: usize) {
        self.limiter.mem_usage()
    }

    fn reclaim(&mut self, bytes: usize) {
        let before = self.limiter.mem_usage();
        self.limiter.reclaim(bytes);
        let after = self.limiter.mem_usage();
        self.recorder.record_free(before, after);
    }
}

} // verus!
