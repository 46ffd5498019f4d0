//! Craft kits: the visual and drive-feel overrides that set opponents and
//! garage picks apart from the baseline craft.
//!
//! Real-valued quantities are held in thousandths (fixed point).
use vstd::prelude::*;

verus! {

/// Visual / stance / handling override relative to the baseline craft.
#[derive(Clone, Copy, Debug)]
pub struct Kit {
    pub body_model: &'static str,
    pub wheel_model: &'static str,
    /// Linear RGBA tint, in thousandths.
    pub tint: [u32; 4],
    /// Half the wheel track, in millimetres.
    pub half_track: u32,
    /// Multipliers on the baseline, in thousandths (1000 = unchanged).
    pub drive_factor_scale: u32,
    pub motor_max_force_scale: u32,
    pub body_mass_scale: u32,
    pub wheel_friction_scale: u32,
    pub grip_scale: u32,
    /// Jump impulse, in thousandths of a newton-second; `None` keeps the baseline.
    pub jump_impulse: Option<u32>,
}

/// What the recovery monitor asks for after a step.
#[derive(Clone, Copy, Debug, PartialEq, Eq, Structural)]
pub struct RecoveryAction {
    /// Give the craft a radial hop and a shove along its heading.
    pub hop: bool,
    /// Lift, reorient and set the craft back down near the road.
    pub recover: bool,
}

/// Watches a craft for being inverted, wedged, spinning its tyres or just
/// having hit something, and decides when to hop it and when to recover it.
///
/// Times are milliseconds, speeds mm/s, distances mm, `upright` is the cosine
/// between the body's up and the radial up, in thousandths.
#[derive(Clone, Copy, Debug, PartialEq, Eq, Structural)]
pub struct Recovery {
    pub stuck_time: u64,
    pub inverted_time: u64,
    pub prev_speed: u32,
    pub hopped: bool,
}

/// Longest step the monitor counts, in milliseconds.
pub open spec fn capped_dt(dt: u64) -> u64 {
    if dt < 100 { dt } else { 100 }
}

/// A sudden stop from speed: faster than 7 m/s last step, under 1.8 m/s now.
pub open spec fn is_impact(prev_speed: u32, speed: u32) -> bool {
    prev_speed > 7000 && speed < 1800
}

/// The craft counts as stuck: wedged (slow while off the road or tilted),
/// spinning its tyres under power, or just stopped by an impact.
pub open spec fn is_stuck(prev_speed: u32, speed: u32, upright: i32, off_track: i32, powered: bool) -> bool {
    ||| speed < 1300 && (off_track > 400 || upright < 550)
    ||| powered && speed < 450
    ||| is_impact(prev_speed, speed)
}

impl Recovery {
    /// A monitor with nothing observed yet.
    pub open spec fn fresh() -> Recovery {
        Recovery { stuck_time: 0, inverted_time: 0, prev_speed: 0, hopped: false }
    }

    /// Timers and flags after observing one step, before any recovery.
    pub open spec fn observed(self, speed: u32, upright: i32, off_track: i32, powered: bool, dt: u64) -> Recovery {
        let d = capped_dt(dt);
        let inverted_time: u64 = if upright < 200 { self.inverted_time.saturating_add(d) } else { 0 };
        let stuck = is_stuck(self.prev_speed, speed, upright, off_track, powered);
        let gain: u64 = if is_impact(self.prev_speed, speed) { 3 } else { 1 };
        let stuck_time: u64 = if stuck { self.stuck_time.saturating_add((d * gain) as u64) } else { 0 };
        let hopped = if stuck { self.hopped } else { false };
        Recovery { stuck_time, inverted_time, prev_speed: speed, hopped: hopped || stuck_time > 280 }
    }

    pub fn new() -> (r: Self)
        ensures
            r == Recovery::fresh(),
    {
        Recovery { stuck_time: 0, inverted_time: 0, prev_speed: 0, hopped: false }
    }

    /// Forget everything observed (the craft was just placed somewhere new).
    pub fn reset(&mut self)
        ensures
            *final(self) == Recovery::fresh(),
    {
        *self = Recovery::new();
    }

    /// Observe one step of `dt` milliseconds and decide: hop once when the
    /// craft has been stuck for over 0.28 s, recover when it has been
    /// inverted for over 0.7 s or stuck for over 1.05 s (an impact counts
    /// triple). Recovering places the craft anew, which resets the monitor.
    pub fn step(&mut self, speed: u32, upright: i32, off_track: i32, powered: bool, dt: u64) -> (a: RecoveryAction)
        ensures
            ({
                let o = old(self).observed(speed, upright, off_track, powered, dt);
                &&& a.hop == (!(if is_stuck(old(self).prev_speed, speed, upright, off_track, powered) { old(self).hopped } else { false }) && o.stuck_time > 280)
                &&& a.recover == (o.inverted_time > 700 || o.stuck_time > 1050)
                &&& *final(self) == if a.recover { Recovery::fresh() } else { o }
            }),
    {
        let d: u64 = if dt < 100 { dt } else { 100 };
        if upright < 200 {
            self.inverted_time = self.inverted_time.saturating_add(d);
        } else {
            self.inverted_time = 0;
        }
        let impact = self.prev_speed > 7000 && speed < 1800;
        let wedged = speed < 1300 && (off_track > 400 || upright < 550);
        let spinning_tires = powered && speed < 450;
        if wedged || spinning_tires || impact {
            let gain: u64 = if impact { 3 } else { 1 };
            self.stuck_time = self.stuck_time.saturating_add(d * gain);
        } else {
            self.stuck_time = 0;
            self.hopped = false;
        }
        self.prev_speed = speed;
        let hop = !self.hopped && self.stuck_time > 280;
        if hop {
            self.hopped = true;
        }
        let recover = self.inverted_time > 700 || self.stuck_time > 1050;
        if recover {
            self.reset();
        }
        RecoveryAction { hop, recover }
    }
}

/// The monitor hops a craft at most once per stuck spell: after a hop the
/// flag stays set until the craft moves freely again or is recovered.
pub proof fn lemma_hop_once_per_spell(r: Recovery, speed: u32, upright: i32, off_track: i32, powered: bool, dt: u64)
    requires
        r.hopped,
        is_stuck(r.prev_speed, speed, upright, off_track, powered),
    ensures
        r.observed(speed, upright, off_track, powered, dt).hopped,
        !(!(if is_stuck(r.prev_speed, speed, upright, off_track, powered) { r.hopped } else { false })
            && r.observed(speed, upright, off_track, powered, dt).stuck_time > 280),
{
}

/// A craft that is upright and moving freely is never recovered, and its
/// stuck and inverted timers restart from zero.
pub proof fn lemma_free_craft_is_left_alone(r: Recovery, speed: u32, upright: i32, off_track: i32, powered: bool, dt: u64)
    requires
        upright >= 200,
        !is_stuck(r.prev_speed, speed, upright, off_track, powered),
    ensures
        r.observed(speed, upright, off_track, powered, dt).stuck_time == 0,
        r.observed(speed, upright, off_track, powered, dt).inverted_time == 0,
        !r.observed(speed, upright, off_track, powered, dt).hopped,
{
}

/// Recovery needs time: from a fresh monitor, no single step recovers, since
/// one step counts at most 0.1 s (0.3 s for an impact).
pub proof fn lemma_no_instant_recovery(speed: u32, upright: i32, off_track: i32, powered: bool, dt: u64)
    ensures
        ({
            let o = Recovery::fresh().observed(speed, upright, off_track, powered, dt);
            !(o.inverted_time > 700 || o.stuck_time > 1050)
        }),
{
}

/// How long a bump keeps a craft recoiling, in milliseconds.
pub const RECOIL_MS: u64 = 500;

/// Below this much recoil left (milliseconds) a craft takes a fresh shove.
pub const PUSHABLE_RECOIL_MS: u64 = 80;

/// The after-effect of a car-to-car bump: for half a second the craft's
/// drive target is damped, fading back to full as the recoil runs out.
#[derive(Clone, Copy, Debug, PartialEq, Eq, Structural)]
pub struct Recoil {
    /// Recoil left, in milliseconds.
    pub remaining: u64,
}

/// Share of the drive target kept with `remaining` ms of recoil left, in
/// millionths: `1 - 0.75 * min(remaining / 500, 1)`.
pub open spec fn drive_share(remaining: u64) -> int {
    let r: int = if remaining < RECOIL_MS { remaining as int } else { RECOIL_MS as int };
    1_000_000 - 1500 * r
}

impl Recoil {
    pub fn new() -> (r: Self)
        ensures
            r.remaining == 0,
    {
        Recoil { remaining: 0 }
    }

    /// A bump: recoil for at least the full half second.
    pub fn register_bump(&mut self)
        ensures
            final(self).remaining == if old(self).remaining < RECOIL_MS { RECOIL_MS } else { old(self).remaining },
    {
        if self.remaining < RECOIL_MS {
            self.remaining = RECOIL_MS;
        }
    }

    pub fn is_recoiling(&self) -> (b: bool)
        ensures
            b == (self.remaining > 0),
    {
        self.remaining > 0
    }

    pub fn recoil_time(&self) -> (t: u64)
        ensures
            t == self.remaining,
    {
        self.remaining
    }

    /// Whether a new bump may shove this craft: almost no recoil left.
    pub fn pushable(&self) -> (b: bool)
        ensures
            b == (self.remaining <= PUSHABLE_RECOIL_MS),
    {
        self.remaining <= PUSHABLE_RECOIL_MS
    }

    /// Spend one drive step of `dt` ms: returns the share of the drive target
    /// kept this step (millionths), judged on the recoil before the step, and
    /// runs the recoil down by `dt`, not below zero.
    pub fn damp(&mut self, dt: u64) -> (share: u32)
        ensures
            share == drive_share(old(self).remaining),
            final(self).remaining == run_down(old(self).remaining, dt),
    {
        if self.remaining == 0 {
            return 1_000_000;
        }
        let r: u64 = if self.remaining < RECOIL_MS { self.remaining } else { RECOIL_MS };
        self.remaining = if self.remaining > dt { self.remaining - dt } else { 0 };
        (1_000_000 - 1500 * r) as u32
    }

    /// Clear the recoil (the craft was just placed somewhere new).
    pub fn reset(&mut self)
        ensures
            final(self).remaining == 0,
    {
        self.remaining = 0;
    }
}

/// Right after a bump the craft is recoiling, is not shoved again, and drives
/// at a quarter of its target.
pub proof fn lemma_bump_damps_to_a_quarter(before: u64)
    ensures
        ({
            let after: u64 = if before < RECOIL_MS { RECOIL_MS } else { before };
            &&& after > 0
            &&& !(after <= PUSHABLE_RECOIL_MS)
            &&& drive_share(after) == 250_000
        }),
{
}

/// The drive share never grows as recoil accumulates, stays within a quarter
/// and all of the target, and is all of it once the recoil has run out.
pub proof fn lemma_drive_share_bounds(a: u64, b: u64)
    ensures
        a <= b ==> drive_share(b) <= drive_share(a),
        250_000 <= drive_share(a) <= 1_000_000,
        drive_share(0) == 1_000_000,
{
}

/// Recoil left after `dt` ms of driving.
pub open spec fn run_down(remaining: u64, dt: u64) -> u64 {
    if remaining > dt { (remaining - dt) as u64 } else { 0 }
}

/// Recoil runs out with elapsed time alone: two drive steps leave what one
/// step of their summed length leaves, and half a second of driving clears
/// any single bump.
pub proof fn lemma_recoil_runs_out(remaining: u64, a: u64, b: u64)
    requires
        a + b <= u64::MAX,
    ensures
        run_down(run_down(remaining, a), b) == run_down(remaining, (a + b) as u64),
        run_down(RECOIL_MS, (a + b) as u64) == 0 <== a + b >= RECOIL_MS,
{
}

/// Tyres spinning under power count as stuck wherever the craft is and
/// however it leans: a powered craft slower than 450 mm/s adds the (capped)
/// step to its stuck time, and so is first hopped on the third 0.1 s step
/// from a fresh monitor.
pub proof fn lemma_spinning_tyres_count_as_stuck(r: Recovery, speed: u32, upright: i32, off_track: i32, dt: u64)
    requires
        speed < 450,
    ensures
        r.observed(speed, upright, off_track, true, dt).stuck_time >= (if r.stuck_time + capped_dt(dt) > u64::MAX { u64::MAX as int } else { r.stuck_time + capped_dt(dt) }),
        ({
            let o1 = Recovery::fresh().observed(speed, upright, off_track, true, 100);
            let o2 = o1.observed(speed, upright, off_track, true, 100);
            let o3 = o2.observed(speed, upright, off_track, true, 100);
            &&& o1.stuck_time == 100 && !o1.hopped
            &&& o2.stuck_time == 200 && !o2.hopped
            &&& o3.stuck_time == 300 && o3.hopped
        }),
{
}

/// An upside-down craft (body up less than 0.2 along the radial up) adds
/// the capped step to its inverted time; an upright one restarts it at zero.
pub proof fn lemma_inverted_time(r: Recovery, speed: u32, upright: i32, off_track: i32, powered: bool, dt: u64)
    ensures
        upright < 200 ==> r.observed(speed, upright, off_track, powered, dt).inverted_time
            == (if r.inverted_time + capped_dt(dt) > u64::MAX { u64::MAX as int } else { r.inverted_time + capped_dt(dt) }),
        upright >= 200 ==> r.observed(speed, upright, off_track, powered, dt).inverted_time == 0,
        capped_dt(dt) <= 100 && capped_dt(dt) <= dt,
        dt <= 100 ==> capped_dt(dt) == dt,
{
}

} // verus!
