//! The host's clock for the board.
use vstd::prelude::*;
use crate::resolution::sat_add;

verus! {

/// Time that the board has seen, kept by the host and handed to each tick.
pub struct BoardTimer {
    /// Milliseconds accumulated since the board started, held at `u64::MAX`.
    pub time_since_tick: u64,
}

impl BoardTimer {
    pub fn new() -> (r: BoardTimer)
        ensures
            r.time_since_tick == 0,
    {
        BoardTimer { time_since_tick: 0 }
    }

    /// Adds `elapsed_ms` milliseconds.
    pub fn update(&mut self, elapsed_ms: u64)
        ensures
            final(self).time_since_tick == sat_add(old(self).time_since_tick, elapsed_ms),
    {
        self.time_since_tick = self.time_since_tick.saturating_add(elapsed_ms);
    }
}

impl Default for BoardTimer {
    fn default() -> (r: BoardTimer)
        ensures
            r.time_since_tick == 0,
    {
        BoardTimer::new()
    }
}

} // verus!
