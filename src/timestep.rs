//! Fixed-step scheduling: elapsed time is accumulated, and every whole step
//! of it yields one generation tick, independently of the host's frame rate.
use vstd::prelude::*;

verus! {

/// Time between two generation ticks, in microseconds (five per second).
pub const DEFAULT_STEP_MICROS: u64 = 200_000;

/// An accumulator of elapsed time that hands out whole steps.
pub struct FixedTimestep {
    step: u64,
    accumulated: u64,
}

impl FixedTimestep {
    /// The length of one step.
    pub closed spec fn step_spec(&self) -> u64 {
        self.step
    }

    /// Time accumulated towards the next step.
    pub closed spec fn pending(&self) -> u64 {
        self.accumulated
    }

    /// The accumulator is consistent: a positive step, and less than one step
    /// pending.
    pub open spec fn wf(&self) -> bool {
        0 < self.step_spec() && self.pending() < self.step_spec()
    }

    /// A schedule of one tick per `step` units of time, with nothing pending.
    pub fn new(step: u64) -> (t: FixedTimestep)
        requires
            step > 0,
        ensures
            t.wf(),
            t.step_spec() == step,
            t.pending() == 0,
    {
        FixedTimestep { step, accumulated: 0 }
    }

    /// The length of one step.
    pub fn step(&self) -> (s: u64)
        ensures
            s == self.step_spec(),
    {
        self.step
    }

    /// Time accumulated towards the next step.
    pub fn accumulated(&self) -> (a: u64)
        ensures
            a == self.pending(),
    {
        self.accumulated
    }

    /// Adds `elapsed` to the accumulator and returns how many whole steps
    /// are now due; what is left over stays pending.
    pub fn advance(&mut self, elapsed: u64) -> (ticks: u64)
        requires
            old(self).wf(),
        ensures
            final(self).wf(),
            final(self).step_spec() == old(self).step_spec(),
            ticks * old(self).step_spec() + final(self).pending() == old(self).pending() + elapsed,
    {
        let q = elapsed / self.step;
        let r = elapsed % self.step;
        let room = self.step - self.accumulated;
        if r >= room {
            self.accumulated = r - room;
            proof {
                assert(q * self.step + r == elapsed) by (nonlinear_arith)
                    requires q == elapsed / self.step, r == elapsed % self.step, self.step > 0;
                assert(self.step > 1);
                assert(q < u64::MAX) by (nonlinear_arith)
                    requires q * self.step <= elapsed, self.step > 1;
                assert((q + 1) * self.step == q * self.step + self.step) by (nonlinear_arith);
            }
            q + 1
        } else {
            self.accumulated = self.accumulated + r;
            proof {
                assert(q * self.step + r == elapsed) by (nonlinear_arith)
                    requires q == elapsed / self.step, r == elapsed % self.step, self.step > 0;
            }
            q
        }
    }
}

} // verus!
