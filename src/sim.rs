//! The simulation loop: a grid and the time of its last step, stepped at
//! most once per call when the interval has passed.

use crate::grid::{valid_dims, Canvas};
use vstd::prelude::*;

verus! {

/// Columns of the default grid.
pub const GRID_WIDTH: usize = 60;

/// Rows of the default grid.
pub const GRID_HEIGHT: usize = 40;

/// Default time between steps, in milliseconds.
pub const UPDATE_INTERVAL_MS: u64 = 100;

/// Whether a step is due at time `now`, the last one having been at `last`:
/// strictly more than `interval` has passed.
pub open spec fn step_due(last: u64, now: u64, interval: u64) -> bool {
    now - last > interval
}

/// The grid being simulated, the time (in milliseconds) of the last step,
/// and the time between steps.
pub struct Model {
    pub screen: Canvas,
    pub t: u64,
    pub interval: u64,
}

impl Model {
    pub open spec fn wf(&self) -> bool {
        self.screen.wf()
    }

    /// A random `GRID_WIDTH` x `GRID_HEIGHT` grid, clock at zero, stepping
    /// every `UPDATE_INTERVAL_MS`.
    pub fn new() -> (r: Model)
        ensures
            r.wf(),
            r.screen@.width == GRID_WIDTH,
            r.screen@.height == GRID_HEIGHT,
            r.t == 0,
            r.interval == UPDATE_INTERVAL_MS,
    {
        assert(valid_dims(GRID_WIDTH as int, GRID_HEIGHT as int));
        Model { screen: Canvas::new(GRID_WIDTH, GRID_HEIGHT), t: 0, interval: UPDATE_INTERVAL_MS }
    }

    /// A loop over a given grid, clock at zero.
    pub fn from_canvas(screen: Canvas, interval: u64) -> (r: Model)
        requires
            screen.wf(),
        ensures
            r.wf(),
            r == (Model { screen, t: 0, interval }),
    {
        Model { screen, t: 0, interval }
    }

    /// Called once per frame at time `now`: when a step is due, replaces
    /// the grid by its next generation and records `now`. Returns whether
    /// it stepped.
    pub fn update(&mut self, now: u64) -> (r: bool)
        requires
            old(self).wf(),
        ensures
            final(self).wf(),
            r == step_due(old(self).t, now, old(self).interval),
            r ==> final(self).screen@ == old(self).screen@.next() && final(self).t == now
                && final(self).interval == old(self).interval,
            !r ==> *final(self) == *old(self),
    {
        if now > self.t && now - self.t > self.interval {
            let leap = self.screen.next_generation();
            self.screen = leap;
            self.t = now;
            true
        } else {
            false
        }
    }
}

} // verus!
