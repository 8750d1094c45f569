//! Summing the workers' progress counts and reporting throughput.
use vstd::prelude::*;

verus! {

/// Candidates per second for `count` candidates over `ms` milliseconds; a
/// span under one millisecond counts as one.
pub open spec fn rate_of(count: int, ms: int) -> int {
    (count * 1000) / if ms <= 0 {
        1
    } else {
        ms
    }
}

/// A throughput line: the running total and the rate since the last line.
#[derive(Clone, Copy, Debug, PartialEq, Eq, Structural)]
pub struct Report {
    pub total: u64,
    pub rate: u128,
}

/// The running state of the progress aggregator.
pub struct Throughput {
    pub total: u64,
    pub points: u64,
    pub prev_total: u64,
    pub prev_ms: u64,
    pub interval: u64,
}

impl Throughput {
    pub open spec fn wf(&self) -> bool {
        &&& self.interval >= 1
        &&& self.prev_total <= self.total
        &&& self.points == self.prev_total / self.interval
    }

    /// Starts at a total of zero at time `now_ms`, reporting each time the total
    /// passes a multiple of `interval`.
    pub fn new(interval: u64, now_ms: u64) -> (r: Throughput)
        requires
            interval >= 1,
        ensures
            r.wf(),
            r.total == 0,
            r.prev_total == 0,
            r.prev_ms == now_ms,
            r.interval == interval,
    {
        Throughput { total: 0, points: 0, prev_total: 0, prev_ms: now_ms, interval }
    }

    /// Adds `count` candidates received at time `now_ms`. When the total has
    /// passed a multiple of the interval not yet reported, returns the total
    /// and the rate since the previous report, and starts a new span.
    pub fn record(&mut self, count: u64, now_ms: u64) -> (r: Option<Report>)
        requires
            old(self).wf(),
            old(self).total + count <= u64::MAX,
        ensures
            final(self).wf(),
            final(self).interval == old(self).interval,
            final(self).total == old(self).total + count,
            ({
                let t = old(self).total + count;
                if t / (old(self).interval as int) > old(self).points {
                    &&& r == Some(
                        Report {
                            total: t as u64,
                            rate: rate_of(t - old(self).prev_total, now_ms - old(self).prev_ms) as u128,
                        },
                    )
                    &&& final(self).prev_total == t
                    &&& final(self).prev_ms == now_ms
                } else {
                    &&& r is None
                    &&& final(self).prev_total == old(self).prev_total
                    &&& final(self).prev_ms == old(self).prev_ms
                }
            }),
    {
        self.total = self.total + count;
        let np = self.total / self.interval;
        if np > self.points {
            let ms: u64 = if now_ms > self.prev_ms {
                now_ms - self.prev_ms
            } else {
                1
            };
            let delta = (self.total - self.prev_total) as u128;
            proof {
                assert(delta * 1000 <= 0xffff_ffff_ffff_ffffu128 * 1000) by (nonlinear_arith)
                    requires
                        delta <= 0xffff_ffff_ffff_ffffu128,
                ;
            }
            let rate = delta * 1000 / (ms as u128);
            self.points = np;
            self.prev_total = self.total;
            self.prev_ms = now_ms;
            Some(Report { total: self.total, rate })
        } else {
            proof {
                assert((self.prev_total as int) / (self.interval as int) <= (self.total as int) / (self.interval as int))
                    by (nonlinear_arith)
                    requires
                        self.prev_total <= self.total,
                        self.interval >= 1,
                ;
            }
            None
        }
    }
}

} // verus!
