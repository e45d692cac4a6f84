//! Frame clock: a fixed-period accumulator deciding when simulation frames
//! are due.
//!
//! Elapsed time is added to an accumulator; each poll drains as many whole
//! periods as accumulated, one per `try_tick`, which supports catching up
//! after a stall without ever running ticks out of order.

use vstd::prelude::*;

verus! {

pub struct FrameClock {
    /// Frame period in microseconds; never zero.
    pub period_micros: u64,
    /// Time accumulated and not yet drained, in microseconds.
    pub acc_micros: u64,
}

impl FrameClock {
    pub open spec fn wf(&self) -> bool {
        self.period_micros > 0
    }

    pub fn new(period_micros: u64) -> (r: FrameClock)
        requires
            period_micros > 0,
        ensures
            r.wf(),
            r.period_micros == period_micros,
            r.acc_micros == 0,
    {
        FrameClock { period_micros, acc_micros: 0 }
    }

    /// Account for elapsed wall time.  The accumulator saturates at the
    /// numeric limit rather than wrapping (an absurd stall merely stops
    /// accumulating further debt).
    pub fn advance(&mut self, elapsed_micros: u64)
        requires
            old(self).wf(),
        ensures
            final(self).wf(),
            final(self).period_micros == old(self).period_micros,
            final(self).acc_micros == if old(self).acc_micros + elapsed_micros <= u64::MAX {
                old(self).acc_micros + elapsed_micros
            } else {
                u64::MAX as int
            },
    {
        if elapsed_micros > u64::MAX - self.acc_micros {
            self.acc_micros = u64::MAX;
        } else {
            self.acc_micros = self.acc_micros + elapsed_micros;
        }
    }

    /// Drain one period if a whole one is accumulated; says whether a frame
    /// is due.
    pub fn try_tick(&mut self) -> (r: bool)
        requires
            old(self).wf(),
        ensures
            final(self).wf(),
            final(self).period_micros == old(self).period_micros,
            r == (old(self).acc_micros >= old(self).period_micros),
            r ==> final(self).acc_micros == old(self).acc_micros - old(self).period_micros,
            !r ==> final(self).acc_micros == old(self).acc_micros,
    {
        if self.acc_micros >= self.period_micros {
            self.acc_micros = self.acc_micros - self.period_micros;
            true
        } else {
            false
        }
    }
}

} // verus!
