//! Pacing budget for authoritative resolvers: the transport's pacing rate
//! and round-trip time, in integer microseconds and bytes per second,
//! become a target number of in-flight polls.

use vstd::prelude::*;
use vstd::arithmetic::div_mod::{
    lemma_div_is_ordered, lemma_fundamental_div_mod, lemma_fundamental_div_mod_converse,
    lemma_mod_division_less_than_divisor,
};
use vstd::arithmetic::mul::lemma_mul_inequality;

verus! {

/// Gain applied while the rate is steady, in percent.
pub const PACING_GAIN_BASE_PERCENT: u64 = 100;

/// Gain applied while the rate is probing upward, in percent.
pub const PACING_GAIN_PROBE_PERCENT: u64 = 125;

/// The transport path measurements the budget reads: all plain integers.
#[derive(Debug, Clone, Copy, PartialEq, Eq, Structural)]
pub struct PathQuality {
    /// Pacing rate in bytes per second; zero when unknown.
    pub pacing_rate: u64,
    /// Congestion window in bytes.
    pub cwin: u64,
    /// Smoothed round-trip time in microseconds; zero when unknown.
    pub rtt: u64,
    /// Bytes currently in transit.
    pub bytes_in_transit: u64,
}

/// One pacing decision: the rate it saw, the gain it chose, and the polls
/// it wants in flight.
#[derive(Debug, Clone, Copy, PartialEq, Eq, Structural)]
pub struct PacingBudgetSnapshot {
    pub pacing_rate: u64,
    pub gain_percent: u64,
    pub target_inflight: usize,
}

/// The poll target from the congestion window alone: one poll per MTU of
/// window, rounded up; saturating at the integer edges.
pub open spec fn spec_cwnd_target(cwin: u64, mtu: u32) -> int {
    if mtu == 0 {
        0
    } else {
        let sum: int = if cwin as int + mtu as int - 1 > u64::MAX {
            u64::MAX as int
        } else {
            cwin as int + mtu as int - 1
        };
        let q = sum / (mtu as int);
        if q > usize::MAX {
            usize::MAX as int
        } else {
            q
        }
    }
}

/// One poll per MTU of congestion window, rounded up.
pub fn cwnd_target_polls(cwin: u64, mtu: u32) -> (r: usize)
    ensures
        r == spec_cwnd_target(cwin, mtu),
{
    if mtu == 0 {
        return 0;
    }
    let m = mtu as u64;
    let sum: u64 = if cwin > u64::MAX - (m - 1) {
        u64::MAX
    } else {
        cwin + (m - 1)
    };
    let q: u64 = sum / m;
    if q > usize::MAX as u64 {
        usize::MAX
    } else {
        q as usize
    }
}

/// One packet per MTU of bytes in transit, rounded up.
pub fn inflight_packet_estimate(bytes_in_transit: u64, mtu: u32) -> (r: usize)
    ensures
        r == spec_cwnd_target(bytes_in_transit, mtu),
{
    cwnd_target_polls(bytes_in_transit, mtu)
}

/// The round-trip time the budget divides by: the smoothed value, a caller
/// proxy when that is unknown, floored at one microsecond.
pub open spec fn spec_derive_rtt(rtt_us: u64, rtt_proxy_us: u64) -> u64 {
    let candidate = if rtt_us > 0 {
        rtt_us
    } else {
        rtt_proxy_us
    };
    if candidate == 0 {
        1u64
    } else {
        candidate
    }
}

/// The gain for the coming pass: probe when the rate rose by more than five
/// percent over the last pass, steady otherwise.
pub open spec fn spec_gain_percent(last_rate: u64, rate: u64) -> u64 {
    if rate as int * 100 > last_rate as int * 105 {
        PACING_GAIN_PROBE_PERCENT
    } else {
        PACING_GAIN_BASE_PERCENT
    }
}

/// Ceiling division, capped to what a `usize` can hold.
pub open spec fn ceil_div_capped(num: int, den: int) -> int {
    let q = (num + den - 1) / den;
    if q > usize::MAX {
        usize::MAX as int
    } else {
        q
    }
}

/// The poll target from a positive pacing rate: the queries per second the
/// rate sustains at the chosen gain, times the round-trip time.
pub open spec fn spec_rate_target(rate: u64, gain: u64, rtt_us: u64, mtu: u32) -> int {
    ceil_div_capped(rate as int * gain as int * rtt_us as int, mtu as int * 100000000)
}

/// The pacing budget of one resolver path.
#[derive(Debug, Clone, Copy)]
pub struct PacingPollBudget {
    mtu: u32,
    last_pacing_rate: u64,
}

impl PacingPollBudget {
    /// The per-query payload size the budget divides the rate by.
    pub closed spec fn spec_mtu(&self) -> u32 {
        self.mtu
    }

    /// The pacing rate of the last pass.
    pub closed spec fn spec_last_rate(&self) -> u64 {
        self.last_pacing_rate
    }

    /// A fresh budget for the given per-query payload size.
    pub fn new(mtu: u32) -> (r: PacingPollBudget)
        requires
            mtu >= 1,
        ensures
            r.spec_mtu() == mtu,
            r.spec_last_rate() == 0,
    {
        PacingPollBudget { mtu, last_pacing_rate: 0 }
    }

    /// One pacing decision from the path's current measurements.
    ///
    /// With no rate the congestion window sets the target; otherwise the
    /// rate at the chosen gain does, over the derived round-trip time.
    pub fn target_inflight(&mut self, quality: &PathQuality, rtt_proxy_us: u64) -> (r:
        PacingBudgetSnapshot)
        requires
            old(self).spec_mtu() >= 1,
        ensures
            final(self).spec_mtu() == old(self).spec_mtu(),
            r.pacing_rate == quality.pacing_rate,
            quality.pacing_rate == 0 ==> r.target_inflight == spec_cwnd_target(
                quality.cwin,
                old(self).spec_mtu(),
            ) && r.gain_percent == PACING_GAIN_BASE_PERCENT && final(self).spec_last_rate() == 0,
            quality.pacing_rate > 0 ==> r.gain_percent == spec_gain_percent(
                old(self).spec_last_rate(),
                quality.pacing_rate,
            ) && r.target_inflight == spec_rate_target(
                quality.pacing_rate,
                r.gain_percent,
                spec_derive_rtt(quality.rtt, rtt_proxy_us),
                old(self).spec_mtu(),
            ) && final(self).spec_last_rate() == quality.pacing_rate,
    {
        let pacing_rate = quality.pacing_rate;
        if pacing_rate == 0 {
            let target_inflight = cwnd_target_polls(quality.cwin, self.mtu);
            self.last_pacing_rate = 0;
            return PacingBudgetSnapshot {
                pacing_rate,
                gain_percent: PACING_GAIN_BASE_PERCENT,
                target_inflight,
            };
        }
        let gain: u64 = if (pacing_rate as u128) * 100 > (self.last_pacing_rate as u128) * 105 {
            PACING_GAIN_PROBE_PERCENT
        } else {
            PACING_GAIN_BASE_PERCENT
        };
        self.last_pacing_rate = pacing_rate;
        let rtt_candidate: u64 = if quality.rtt > 0 {
            quality.rtt
        } else {
            rtt_proxy_us
        };
        let rtt_us: u64 = if rtt_candidate == 0 {
            1
        } else {
            rtt_candidate
        };
        proof {
            assert((pacing_rate as int) * (gain as int) <= u64::MAX as int * 125)
                by (nonlinear_arith)
                requires
                    pacing_rate as int <= u64::MAX as int,
                    gain as int <= 125,
                    pacing_rate as int >= 0,
                    gain as int >= 0,
            ;
        }
        let num1: u128 = (pacing_rate as u128) * (gain as u128);
        proof {
            assert((self.mtu as int) * 100000000 <= u32::MAX as int * 100000000)
                by (nonlinear_arith)
                requires
                    0 <= self.mtu as int <= u32::MAX as int,
            ;
        }
        let den: u128 = (self.mtu as u128) * 100000000;
        let target_inflight: usize = if num1 > u128::MAX / (rtt_us as u128) {
            proof {
                assert(num1 * (rtt_us as u128) > u128::MAX) by {
                    lemma_fundamental_div_mod(u128::MAX as int, rtt_us as int);
                    lemma_mod_division_less_than_divisor(u128::MAX as int, rtt_us as int);
                    assert(num1 as int >= u128::MAX as int / rtt_us as int + 1);
                    lemma_mul_inequality(
                        u128::MAX as int / rtt_us as int + 1,
                        num1 as int,
                        rtt_us as int,
                    );
                    assert((u128::MAX as int / rtt_us as int + 1) * rtt_us as int > u128::MAX)
                        by (nonlinear_arith)
                        requires
                            rtt_us as int >= 1,
                            u128::MAX as int == (rtt_us as int) * ((u128::MAX as int) / (
                            rtt_us as int)) + ((u128::MAX as int) % (rtt_us as int)),
                            ((u128::MAX as int) % (rtt_us as int)) < (rtt_us as int),
                    ;
                }
                lemma_target_overflow_cap(
                    pacing_rate as int,
                    gain as int,
                    rtt_us as int,
                    self.mtu as int,
                );
            }
            usize::MAX
        } else {
            proof {
                lemma_fundamental_div_mod(u128::MAX as int, rtt_us as int);
                lemma_mod_division_less_than_divisor(u128::MAX as int, rtt_us as int);
                assert((num1 as int) * (rtt_us as int) <= u128::MAX as int) by (nonlinear_arith)
                    requires
                        0 <= num1 as int <= (u128::MAX as int) / (rtt_us as int),
                        rtt_us as int >= 1,
                        u128::MAX as int == (rtt_us as int) * ((u128::MAX as int) / (
                        rtt_us as int)) + ((u128::MAX as int) % (rtt_us as int)),
                        ((u128::MAX as int) % (rtt_us as int)) >= 0,
                ;
            }
            let num: u128 = num1 * (rtt_us as u128);
            proof {
                lemma_div_is_ordered(num as int, u128::MAX as int, den as int);
                lemma_fundamental_div_mod(u128::MAX as int, den as int);
                lemma_mod_division_less_than_divisor(u128::MAX as int, den as int);
                assert((u128::MAX as int) / (den as int) < u128::MAX as int)
                    by (nonlinear_arith)
                    requires
                        den as int >= 100000000,
                        u128::MAX as int == (den as int) * ((u128::MAX as int) / (den as int))
                            + ((u128::MAX as int) % (den as int)),
                        ((u128::MAX as int) % (den as int)) >= 0,
                ;
            }
            let q: u128 = num / den + (if num % den != 0 {
                1
            } else {
                0
            });
            proof {
                lemma_ceil_div_form(num as int, den as int);
            }
            if q > usize::MAX as u128 {
                usize::MAX
            } else {
                q as usize
            }
        };
        PacingBudgetSnapshot { pacing_rate, gain_percent: gain, target_inflight }
    }
}

/// Ceiling division written as floor division plus a remainder test.
proof fn lemma_ceil_div_form(num: int, den: int)
    requires
        num >= 0,
        den >= 1,
    ensures
        num / den + (if num % den != 0 {
            1int
        } else {
            0int
        }) == (num + den - 1) / den,
{
    lemma_fundamental_div_mod(num, den);
    let q = num / den;
    let r = num % den;
    lemma_mod_division_less_than_divisor(num, den);
    if r == 0 {
        assert(num + den - 1 == q * den + (den - 1)) by (nonlinear_arith)
            requires
                num == den * q + r,
                r == 0,
        ;
        lemma_fundamental_div_mod_converse(num + den - 1, den, q, den - 1);
    } else {
        assert(num + den - 1 == (q + 1) * den + (r - 1)) by (nonlinear_arith)
            requires
                num == den * q + r,
        ;
        lemma_fundamental_div_mod_converse(num + den - 1, den, q + 1, r - 1);
    }
}

/// When the full product overflows 128 bits, the exact target already
/// exceeds what a `usize` can hold.
proof fn lemma_target_overflow_cap(rate: int, gain: int, rtt: int, mtu: int)
    requires
        1 <= rate,
        100 <= gain <= 125,
        1 <= rtt,
        1 <= mtu <= u32::MAX,
        rate * gain * rtt > u128::MAX,
    ensures
        ceil_div_capped(rate * gain * rtt, mtu * 100000000) == usize::MAX as int,
{
    let num = rate * gain * rtt;
    let den = mtu * 100000000;
    let cap = usize::MAX as int + 1;
    assert(den <= u32::MAX as int * 100000000) by {
        lemma_mul_inequality(mtu, u32::MAX as int, 100000000);
        assert(mtu * 100000000 == 100000000 * mtu) by (nonlinear_arith);
        assert(u32::MAX as int * 100000000 == 100000000 * u32::MAX as int) by (nonlinear_arith);
        lemma_mul_inequality(mtu, u32::MAX as int, 100000000);
        assert(mtu * 100000000 <= u32::MAX as int * 100000000) by (nonlinear_arith)
            requires
                mtu <= u32::MAX as int,
        ;
    }
    assert(cap * den <= u128::MAX) by (nonlinear_arith)
        requires
            1 <= den <= u32::MAX as int * 100000000,
            cap == usize::MAX as int + 1,
            usize::MAX as int <= u64::MAX as int,
    ;
    assert(num / den >= cap) by {
        assert(cap * den <= num);
        assert(cap * den == den * cap) by (nonlinear_arith);
        vstd::arithmetic::div_mod::lemma_div_multiples_vanish(cap, den);
        lemma_div_is_ordered(den * cap, num, den);
    }
    assert((num + den - 1) / den >= num / den) by {
        lemma_div_is_ordered(num, num + den - 1, den);
    }
}

/// With the rate unknown, the target is the congestion window in MTU-sized
/// packets, rounded up, wherever that count fits the machine.
pub proof fn lemma_zero_rate_target_is_cwnd(cwin: u64, mtu: u32)
    requires
        mtu >= 1,
        cwin as int + mtu as int <= u64::MAX,
        (cwin as int + mtu as int - 1) / mtu as int <= usize::MAX,
    ensures
        spec_cwnd_target(cwin, mtu) == (cwin as int + mtu as int - 1) / mtu as int,
{
}

/// At a fixed round-trip time and last rate, a higher pacing rate never
/// lowers the target.
pub proof fn lemma_target_monotone_in_rate(last: u64, r1: u64, r2: u64, rtt: u64, mtu: u32)
    requires
        1 <= r1 <= r2,
        rtt >= 1,
        mtu >= 1,
    ensures
        spec_rate_target(r1, spec_gain_percent(last, r1), rtt, mtu) <= spec_rate_target(
            r2,
            spec_gain_percent(last, r2),
            rtt,
            mtu,
        ),
{
    let g1 = spec_gain_percent(last, r1);
    let g2 = spec_gain_percent(last, r2);
    assert(g1 <= g2) by {
        if r1 as int * 100 > last as int * 105 {
            assert(r2 as int * 100 >= r1 as int * 100);
        }
    }
    let a1 = r1 as int * g1 as int;
    let a2 = r2 as int * g2 as int;
    assert(a1 <= a2) by {
        lemma_mul_inequality(r1 as int, r2 as int, g1 as int);
        assert(r2 as int * g1 as int <= r2 as int * g2 as int) by (nonlinear_arith)
            requires
                g1 as int <= g2 as int,
                r2 as int >= 0,
        ;
    }
    let n1 = a1 * rtt as int;
    let n2 = a2 * rtt as int;
    assert(n1 <= n2) by {
        lemma_mul_inequality(a1, a2, rtt as int);
    }
    let den = mtu as int * 100000000;
    assert(den >= 100000000) by (nonlinear_arith)
        requires
            den == mtu as int * 100000000,
            mtu as int >= 1,
    ;
    assert(a1 >= 0) by (nonlinear_arith)
        requires
            a1 == r1 as int * g1 as int,
            r1 as int >= 1,
            g1 as int >= 100,
    ;
    assert(n1 >= 0) by (nonlinear_arith)
        requires
            n1 == a1 * rtt as int,
            a1 >= 0,
            rtt as int >= 1,
    ;
    lemma_div_is_ordered(n1 + den - 1, n2 + den - 1, den);
}

} // verus!
