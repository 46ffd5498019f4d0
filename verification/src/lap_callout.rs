//! Brief championship banners when crossing the line: lap time, FINAL LAP, FINISH,
//! plus a light BEST SECTOR flash on a personal-best gate split.
//!
//! Times are whole milliseconds.
use vstd::prelude::*;

verus! {

/// How long a completed-lap time flash stays up.
pub const LAP_HOLD_MS: u64 = 1350;
/// How long the FINAL LAP callout stays up.
pub const FINAL_HOLD_MS: u64 = 1750;
/// How long FINISH stays up after the checker.
pub const FINISH_HOLD_MS: u64 = 2200;
/// How long a best-sector gate flash stays up (lighter than lap banners).
pub const SECTOR_HOLD_MS: u64 = 950;

#[derive(Clone, Copy, Debug, PartialEq, Eq, Structural)]
pub enum CalloutKind {
    /// Mid-race line cross — flash the lap just completed.
    LapComplete { lap_time: u64 },
    /// Entering the last lap of the race (flash prior lap time underneath).
    FinalLap { previous_lap: u64 },
    /// Race over.
    Finish,
    /// Personal-best sector split at a mid-lap gate.
    SectorBest { sector_time: u64 },
}

/// How long a banner of this kind stays up.
pub open spec fn hold_ms(kind: CalloutKind) -> u64 {
    match kind {
        CalloutKind::LapComplete { .. } => LAP_HOLD_MS,
        CalloutKind::FinalLap { .. } => FINAL_HOLD_MS,
        CalloutKind::Finish => FINISH_HOLD_MS,
        CalloutKind::SectorBest { .. } => SECTOR_HOLD_MS,
    }
}

/// Elapsed time after a step of `dt` from `elapsed`, capped at `hold`.
pub open spec fn capped_step(elapsed: u64, dt: u64, hold: u64) -> u64 {
    if elapsed + dt >= hold { hold } else { (elapsed + dt) as u64 }
}

#[derive(Clone, Copy, Debug)]
pub struct LapCallout {
    kind: CalloutKind,
    elapsed: u64,
}

impl LapCallout {
    /// The banner's time on screen never runs past its hold.
    #[verifier::type_invariant]
    spec fn within_hold(self) -> bool {
        self.elapsed <= hold_ms(self.kind)
    }

    /// Milliseconds the banner has been up.
    pub closed spec fn elapsed_ms(&self) -> u64 {
        self.elapsed
    }

    pub closed spec fn kind_spec(&self) -> CalloutKind {
        self.kind
    }

    pub fn lap_complete(lap_time: u64) -> (c: Self)
        ensures
            c.kind_spec() == (CalloutKind::LapComplete { lap_time }),
            c.elapsed_ms() == 0,
    {
        LapCallout { kind: CalloutKind::LapComplete { lap_time }, elapsed: 0 }
    }

    pub fn final_lap(previous_lap: u64) -> (c: Self)
        ensures
            c.kind_spec() == (CalloutKind::FinalLap { previous_lap }),
            c.elapsed_ms() == 0,
    {
        LapCallout { kind: CalloutKind::FinalLap { previous_lap }, elapsed: 0 }
    }

    pub fn finish() -> (c: Self)
        ensures
            c.kind_spec() == CalloutKind::Finish,
            c.elapsed_ms() == 0,
    {
        LapCallout { kind: CalloutKind::Finish, elapsed: 0 }
    }

    pub fn sector_best(sector_time: u64) -> (c: Self)
        ensures
            c.kind_spec() == (CalloutKind::SectorBest { sector_time }),
            c.elapsed_ms() == 0,
    {
        LapCallout { kind: CalloutKind::SectorBest { sector_time }, elapsed: 0 }
    }

    /// Advance by a physics step of `dt` milliseconds. Returns `true` when
    /// the banner should clear.
    pub fn tick(&mut self, dt: u64) -> (done: bool)
        ensures
            old(self).elapsed_ms() <= final(self).elapsed_ms() <= hold_ms(final(self).kind_spec()),
            final(self).kind_spec() == old(self).kind_spec(),
            final(self).elapsed_ms() == capped_step(
                old(self).elapsed_ms(),
                dt,
                hold_ms(old(self).kind_spec()),
            ),
            done == (final(self).elapsed_ms() >= hold_ms(final(self).kind_spec())),
    {
        proof {
            use_type_invariant(&*self);
        }
        let hold = self.hold();
        self.elapsed = if self.elapsed >= hold || dt >= hold - self.elapsed {
            hold
        } else {
            self.elapsed + dt
        };
        self.is_finished()
    }

    pub fn is_finished(&self) -> (b: bool)
        ensures
            b == (self.elapsed_ms() >= hold_ms(self.kind_spec())),
            self.elapsed_ms() <= hold_ms(self.kind_spec()),
    {
        proof {
            use_type_invariant(self);
        }
        self.elapsed >= self.hold()
    }

    pub fn kind(&self) -> (k: CalloutKind)
        ensures
            k == self.kind_spec(),
    {
        self.kind
    }

    fn hold(&self) -> (h: u64)
        ensures
            h == hold_ms(self.kind_spec()),
    {
        match self.kind {
            CalloutKind::LapComplete { .. } => LAP_HOLD_MS,
            CalloutKind::FinalLap { .. } => FINAL_HOLD_MS,
            CalloutKind::Finish => FINISH_HOLD_MS,
            CalloutKind::SectorBest { .. } => SECTOR_HOLD_MS,
        }
    }
}

/// A banner clears exactly when its hold time has run, never earlier, and a
/// cleared banner stays cleared; time on screen never exceeds the hold.
pub proof fn lemma_banner_clears_after_hold(elapsed: u64, dt: u64, hold: u64)
    requires
        elapsed <= hold,
    ensures
        elapsed <= capped_step(elapsed, dt, hold) <= hold,
        capped_step(elapsed, dt, hold) >= hold <==> elapsed + dt >= hold,
        elapsed >= hold ==> capped_step(elapsed, dt, hold) == hold,
{
}

/// The best-sector flash is the briefest banner and FINISH the longest.
pub proof fn lemma_sector_flash_is_briefest(k: CalloutKind, a: u64)
    ensures
        hold_ms(CalloutKind::SectorBest { sector_time: a }) <= hold_ms(k),
        hold_ms(k) <= hold_ms(CalloutKind::Finish),
{
}

} // verus!
