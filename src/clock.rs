//! The fixed-timestep accumulator that decides how many ticks a frame runs.
use vstd::prelude::*;

verus! {

/// Turns elapsed wall-clock time into a whole number of fixed ticks,
/// carrying the remainder over to the next frame. Times are in nanoseconds.
pub struct TickClock {
    step: u64,
    lag: u64,
}

impl TickClock {
    /// Length of one tick.
    pub closed spec fn spec_step(&self) -> nat {
        self.step as nat
    }

    /// Time elapsed but not yet covered by a tick.
    pub closed spec fn spec_lag(&self) -> nat {
        self.lag as nat
    }

    pub open spec fn wf(&self) -> bool {
        &&& self.spec_step() > 0
        &&& self.spec_lag() < self.spec_step()
    }

    /// A clock whose ticks last `step` nanoseconds, with nothing carried.
    pub fn new(step: u64) -> (r: TickClock)
        requires
            step > 0,
        ensures
            r.wf(),
            r.spec_step() == step,
            r.spec_lag() == 0,
    {
        TickClock { step, lag: 0 }
    }

    pub fn step(&self) -> (r: u64)
        ensures
            r == self.spec_step(),
    {
        self.step
    }

    pub fn lag(&self) -> (r: u64)
        ensures
            r == self.spec_lag(),
    {
        self.lag
    }

    /// Adds `elapsed` to the carried time and returns how many whole ticks
    /// are now due; what is left is carried.
    pub fn advance(&mut self, elapsed: u64) -> (ticks: u64)
        requires
            old(self).wf(),
        ensures
            final(self).wf(),
            final(self).spec_step() == old(self).spec_step(),
            ticks * old(self).spec_step() + final(self).spec_lag() == old(self).spec_lag() + elapsed,
    {
        let step = self.step as u128;
        let total: u128 = self.lag as u128 + elapsed as u128;
        let ticks = total / step;
        let rest = total % step;
        assert(ticks * step + rest == total) by (nonlinear_arith)
            requires
                step > 0,
                ticks == total / step,
                rest == total % step,
        ;
        assert(ticks <= u64::MAX) by (nonlinear_arith)
            requires
                step >= 1,
                ticks == total / step,
                total <= step - 1 + u64::MAX,
                ticks * step <= total,
        ;
        self.lag = rest as u64;
        ticks as u64
    }
}

} // verus!
