//! Brief post-FINISH championship results board (place + lap times).
//!
//! Times are whole milliseconds.
use vstd::prelude::*;
use crate::lap_callout::capped_step;

verus! {

/// How long the results board stays up before auto-returning to the menu.
pub const RESULTS_HOLD_MS: u64 = 4500;

#[derive(Clone, Copy, Debug)]
pub struct RaceResults {
    pub place: usize,
    pub field: usize,
    pub race_time: u64,
    pub best_lap: Option<u64>,
    pub last_lap: Option<u64>,
    pub elapsed: u64,
}

impl RaceResults {
    /// A fresh board; place and field are at least 1.
    pub fn new(
        place: usize,
        field: usize,
        race_time: u64,
        best_lap: Option<u64>,
        last_lap: Option<u64>,
    ) -> (r: Self)
        ensures
            r.place == if place < 1 { 1 } else { place },
            r.field == if field < 1 { 1 } else { field },
            r.race_time == race_time,
            r.best_lap == best_lap,
            r.last_lap == last_lap,
            r.elapsed == 0,
    {
        RaceResults {
            place: if place < 1 { 1 } else { place },
            field: if field < 1 { 1 } else { field },
            race_time,
            best_lap,
            last_lap,
            elapsed: 0,
        }
    }

    /// Advance by a physics step of `dt` milliseconds. Returns `true` when
    /// the board should clear.
    pub fn tick(&mut self, dt: u64) -> (done: bool)
        ensures
            final(self).elapsed == capped_step(old(self).elapsed, dt, RESULTS_HOLD_MS),
            final(self).place == old(self).place,
            final(self).field == old(self).field,
            final(self).race_time == old(self).race_time,
            final(self).best_lap == old(self).best_lap,
            final(self).last_lap == old(self).last_lap,
            done == (final(self).elapsed >= RESULTS_HOLD_MS),
    {
        self.elapsed = if self.elapsed >= RESULTS_HOLD_MS || dt >= RESULTS_HOLD_MS - self.elapsed {
            RESULTS_HOLD_MS
        } else {
            self.elapsed + dt
        };
        self.is_finished()
    }

    pub fn is_finished(&self) -> (b: bool)
        ensures
            b == (self.elapsed >= RESULTS_HOLD_MS),
    {
        self.elapsed >= RESULTS_HOLD_MS
    }
}

} // verus!
