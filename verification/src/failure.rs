//! Injectable failure budgets for exercising error paths: a counter that
//! hands out a fixed number of failures and then stops.

use vstd::prelude::*;

verus! {

/// A budget of failures to inject: `take` says yes that many times.
#[derive(Debug, Clone, Copy)]
pub struct FailureCounter {
    remaining: usize,
}

impl FailureCounter {
    /// How many injected failures remain.
    pub closed spec fn spec_remaining(&self) -> usize {
        self.remaining
    }

    /// A counter with no failures to hand out.
    pub fn new() -> (r: FailureCounter)
        ensures
            r.spec_remaining() == 0,
    {
        FailureCounter { remaining: 0 }
    }

    /// Arms the counter with a number of failures.
    pub fn set(&mut self, count: usize)
        ensures
            final(self).spec_remaining() == count,
    {
        self.remaining = count;
    }

    /// Takes one failure if any remain.
    pub fn take(&mut self) -> (r: bool)
        ensures
            r <==> old(self).spec_remaining() > 0,
            r ==> final(self).spec_remaining() == old(self).spec_remaining() - 1,
            !r ==> final(self).spec_remaining() == 0,
    {
        if self.remaining > 0 {
            self.remaining = self.remaining - 1;
            return true;
        }
        false
    }
}

} // verus!
