//! The decisions of a busy wait on the system counter.
use vstd::prelude::*;

verus! {

/// A busy-wait timer over a free-running counter of known frequency.
pub struct SystemTimer {
    counter_frequency: Option<u64>,
}

impl SystemTimer {
    /// The counter frequency in Hz, once known.
    pub closed spec fn frequency(&self) -> Option<u64> {
        self.counter_frequency
    }

    pub open spec fn ready(&self) -> bool {
        self.frequency() matches Some(f) && f > 0
    }

    /// Counter ticks that `micros` microseconds last, at whole ticks per
    /// microsecond.
    pub open spec fn spec_wait_ticks(&self, micros: int) -> int {
        self.frequency().unwrap() / 1000 / 1000 * micros
    }

    /// A timer whose frequency is not known yet.
    pub fn new() -> (r: SystemTimer)
        ensures
            r.frequency() is None,
    {
        SystemTimer { counter_frequency: None }
    }

    /// Records the counter frequency read from the hardware.
    pub fn init(&mut self, frequency: u64)
        requires
            frequency > 0,
        ensures
            final(self).frequency() == Some(frequency),
            final(self).ready(),
    {
        self.counter_frequency = Some(frequency);
    }

    /// Counter ticks that a wait of `micros` microseconds lasts.
    pub fn wait_ticks(&self, micros: u64) -> (r: u128)
        requires
            self.ready(),
        ensures
            r == self.spec_wait_ticks(micros as int),
    {
        let per_micro = self.counter_frequency.unwrap() / 1000 / 1000;
        assert(per_micro as int * micros as int <= u64::MAX as int * u64::MAX as int) by (nonlinear_arith)
            requires
                per_micro <= u64::MAX,
                micros <= u64::MAX,
        ;
        (per_micro as u128) * (micros as u128)
    }

    /// One check of a wait of `micros` microseconds begun when the counter
    /// read `start`: whether the counter, now at `now`, shows it is over.
    pub fn wait(&self, micros: u64, start: u64, now: u64) -> (done: bool)
        requires
            self.ready(),
            start <= now,
        ensures
            done == (now - start >= self.spec_wait_ticks(micros as int)),
    {
        ((now - start) as u128) >= self.wait_ticks(micros)
    }
}

} // verus!
