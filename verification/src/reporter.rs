//! Rate limiting for invariant-violation reports: at most one report per
//! interval.

use vstd::prelude::*;

verus! {

/// Limits invariant reports to one per interval.
#[derive(Debug, Clone, Copy)]
pub struct InvariantReporter {
    interval_us: u64,
    last_log_at: u64,
}

impl InvariantReporter {
    /// The interval between reports, in microseconds.
    pub closed spec fn spec_interval(&self) -> u64 {
        self.interval_us
    }

    /// When the last report went out.
    pub closed spec fn spec_last_log_at(&self) -> u64 {
        self.last_log_at
    }

    /// A reporter that may fire immediately.
    pub fn new(interval_us: u64) -> (r: InvariantReporter)
        ensures
            r.spec_interval() == interval_us,
            r.spec_last_log_at() == 0,
    {
        InvariantReporter { interval_us, last_log_at: 0 }
    }

    /// Whether a report at `now_us` goes out: only when a whole interval
    /// passed since the last one, which this then records.
    pub fn report(&mut self, now_us: u64) -> (r: bool)
        ensures
            r <==> (now_us >= old(self).spec_last_log_at() && now_us - old(
                self,
            ).spec_last_log_at() >= old(self).spec_interval()) || (now_us < old(
                self,
            ).spec_last_log_at() && old(self).spec_interval() == 0),
            r ==> final(self).spec_last_log_at() == now_us,
            !r ==> final(self).spec_last_log_at() == old(self).spec_last_log_at(),
            final(self).spec_interval() == old(self).spec_interval(),
    {
        let elapsed: u64 = if now_us >= self.last_log_at {
            now_us - self.last_log_at
        } else {
            0
        };
        if elapsed < self.interval_us {
            return false;
        }
        self.last_log_at = now_us;
        true
    }
}

} // verus!
