//! Opponent driving decisions: when a wedged driver is put back on the road,
//! how far along the ribbon it aims, and which speed regime it drives in.
//!
//! Speeds are mm/s, times milliseconds.
use vstd::prelude::*;
use crate::vehicle::capped_dt;

verus! {

/// Below this speed (mm/s) a driver counts as not getting anywhere.
pub const STUCK_SPEED: u32 = 1000;

/// A driver slow for longer than this (ms) is put back on the road.
pub const STUCK_LIMIT_MS: u64 = 2500;

/// Fewest and most track samples a driver aims ahead.
pub const MIN_LOOK_AHEAD: usize = 8;
pub const MAX_LOOK_AHEAD: usize = 20;

/// Counts how long an opponent has been crawling.
#[derive(Clone, Copy, Debug, PartialEq, Eq, Structural)]
pub struct StuckWatch {
    /// Time spent below [`STUCK_SPEED`], in milliseconds.
    pub stuck_time: u64,
}

/// Slow time after observing one step at `speed` over `dt` ms (each step
/// counts at most 0.1 s; any step at speed clears the count).
pub open spec fn watched(stuck_time: u64, speed: u32, dt: u64) -> int {
    if speed < STUCK_SPEED { stuck_time + capped_dt(dt) } else { 0 }
}

impl StuckWatch {
    /// The count never exceeds the limit between steps.
    pub open spec fn wf(&self) -> bool {
        self.stuck_time <= STUCK_LIMIT_MS
    }

    pub fn new() -> (w: Self)
        ensures
            w.wf(),
            w.stuck_time == 0,
    {
        StuckWatch { stuck_time: 0 }
    }

    /// Observe one step; `true` asks for the driver to be put back on the
    /// road a little further along, which restarts the count.
    pub fn step(&mut self, speed: u32, dt: u64) -> (respawn: bool)
        requires
            old(self).wf(),
        ensures
            final(self).wf(),
            respawn == (watched(old(self).stuck_time, speed, dt) > STUCK_LIMIT_MS),
            final(self).stuck_time == if respawn { 0 } else { watched(old(self).stuck_time, speed, dt) },
    {
        if speed < STUCK_SPEED {
            let d: u64 = if dt < 100 { dt } else { 100 };
            self.stuck_time = self.stuck_time + d;
        } else {
            self.stuck_time = 0;
        }
        if self.stuck_time > STUCK_LIMIT_MS {
            self.stuck_time = 0;
            true
        } else {
            false
        }
    }
}

/// Samples ahead a driver at `speed` aims: 8, plus 0.34 per m/s, at most 20.
pub open spec fn look_ahead_spec(speed: u32) -> int {
    let a = MIN_LOOK_AHEAD + speed as int * 34 / 100_000;
    if a < MAX_LOOK_AHEAD { a } else { MAX_LOOK_AHEAD as int }
}

pub fn look_ahead(speed: u32) -> (n: usize)
    ensures
        n == look_ahead_spec(speed),
{
    let extra: u64 = speed as u64 * 34 / 100_000;
    if extra < 12 { 8 + extra as usize } else { MAX_LOOK_AHEAD }
}

/// Track sample a driver steers for, from the nearest sample `nearest` of a
/// track of `track_len` samples (wrapping past the line).
pub fn aim_sample(nearest: usize, speed: u32, track_len: usize) -> (i: usize)
    requires
        nearest < track_len,
    ensures
        i == (nearest + look_ahead_spec(speed)) % (track_len as int),
        i < track_len,
{
    let ahead = look_ahead(speed);
    let sum: u128 = nearest as u128 + ahead as u128;
    (sum % (track_len as u128)) as usize
}

/// Samples a stuck driver is moved ahead, so it does not land on the same
/// obstacle again.
pub const RESPAWN_SKIP: usize = 3;

/// Track sample a stuck driver is put back at: three past the nearest one,
/// wrapping past the line.
pub fn respawn_sample(nearest: usize, track_len: usize) -> (i: usize)
    requires
        nearest < track_len,
    ensures
        i == (nearest + RESPAWN_SKIP) % (track_len as int),
        i < track_len,
{
    let sum: u128 = nearest as u128 + RESPAWN_SKIP as u128;
    (sum % (track_len as u128)) as usize
}

/// How a driver sets its drive target this step.
#[derive(Clone, Copy, Debug, PartialEq, Eq, Structural)]
pub enum SpeedMode {
    /// Just bumped: back off to 35% of the target.
    Recoil,
    /// Running over 112% of the target: let off entirely.
    Coast,
    /// Hold the target, eased for heading and lane error.
    Cruise,
}

pub fn speed_mode(recoiling: bool, speed: u32, target: u32) -> (m: SpeedMode)
    ensures
        m == if recoiling {
            SpeedMode::Recoil
        } else if speed as int * 100 > target as int * 112 {
            SpeedMode::Coast
        } else {
            SpeedMode::Cruise
        },
{
    if recoiling {
        SpeedMode::Recoil
    } else if speed as u64 * 100 > target as u64 * 112 {
        SpeedMode::Coast
    } else {
        SpeedMode::Cruise
    }
}

/// A driver is only put back after at least two and a half seconds of
/// crawling: from a count at or under 2.4 s no single step respawns it, and
/// a step at speed always clears the count.
pub proof fn lemma_respawn_needs_crawling(w: StuckWatch, speed: u32, dt: u64)
    requires
        w.wf(),
    ensures
        w.stuck_time <= STUCK_LIMIT_MS - 100 ==> watched(w.stuck_time, speed, dt) <= STUCK_LIMIT_MS,
        speed >= STUCK_SPEED ==> watched(w.stuck_time, speed, dt) == 0,
        watched(w.stuck_time, speed, dt) <= w.stuck_time + 100,
{
}

/// The aim point stays between 8 and 20 samples ahead and never pulls back
/// as the driver speeds up.
pub proof fn lemma_look_ahead_bounds(a: u32, b: u32)
    ensures
        MIN_LOOK_AHEAD <= look_ahead_spec(a) <= MAX_LOOK_AHEAD,
        a <= b ==> look_ahead_spec(a) <= look_ahead_spec(b),
{
    if a <= b {
        assert(a as int * 34 / 100_000 <= b as int * 34 / 100_000) by (nonlinear_arith)
            requires a <= b;
    }
}

} // verus!
