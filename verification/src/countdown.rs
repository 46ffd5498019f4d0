//! Championship start lights: 3 → 2 → 1 → GO, then release drive.
//!
//! Time is counted in whole milliseconds.
use vstd::prelude::*;

verus! {

/// Milliseconds each numeral (3 / 2 / 1) stays on screen.
pub const BEAT_MS: u64 = 850;

/// How long "GO" stays visible after controls unlock, in milliseconds.
pub const GO_HOLD_MS: u64 = 550;

/// Length of the whole sequence, in milliseconds.
pub open spec fn total_ms() -> u64 {
    (3 * BEAT_MS + GO_HOLD_MS) as u64
}

/// Phase shown after `elapsed` milliseconds, in display order:
/// 0 = "3", 1 = "2", 2 = "1", 3 = "GO", 4 = done (nothing shown).
pub open spec fn phase_at(elapsed: u64) -> int {
    if elapsed >= total_ms() {
        4
    } else if elapsed < BEAT_MS {
        0
    } else if elapsed < 2 * BEAT_MS {
        1
    } else if elapsed < 3 * BEAT_MS {
        2
    } else {
        3
    }
}

/// The HUD text of a phase.
pub open spec fn phase_label(phase: int) -> Option<Seq<char>> {
    if phase == 0 {
        Some("3"@)
    } else if phase == 1 {
        Some("2"@)
    } else if phase == 2 {
        Some("1"@)
    } else if phase == 3 {
        Some("GO"@)
    } else {
        None
    }
}

#[derive(Clone, Copy, Debug)]
pub struct StartCountdown {
    elapsed: u64,
}

impl StartCountdown {
    /// The elapsed time never runs past the end of the sequence.
    #[verifier::type_invariant]
    spec fn within_sequence(self) -> bool {
        self.elapsed <= total_ms()
    }
}

impl View for StartCountdown {
    /// Milliseconds elapsed since the lights came on, capped at the full sequence.
    type V = u64;

    closed spec fn view(&self) -> u64 {
        self.elapsed
    }
}

fn total_duration() -> (t: u64)
    ensures
        t == total_ms(),
{
    BEAT_MS * 3 + GO_HOLD_MS
}

impl StartCountdown {
    pub fn new() -> (c: Self)
        ensures
            c@ == 0,
    {
        StartCountdown { elapsed: 0 }
    }

    /// Advance by a physics (or wall) step of `dt` milliseconds. Returns
    /// `true` when the sequence is done.
    pub fn tick(&mut self, dt: u64) -> (done: bool)
        ensures
            old(self)@ <= final(self)@ <= total_ms(),
            final(self)@ == if old(self)@ + dt >= total_ms() {
                total_ms()
            } else {
                (old(self)@ + dt) as u64
            },
            done == (final(self)@ >= total_ms()),
    {
        proof {
            use_type_invariant(&*self);
        }
        let total = total_duration();
        self.elapsed = if self.elapsed >= total || dt >= total - self.elapsed {
            total
        } else {
            self.elapsed + dt
        };
        self.is_finished()
    }

    pub fn is_finished(&self) -> (b: bool)
        ensures
            b == (self@ >= total_ms()),
            self@ <= total_ms(),
    {
        proof {
            use_type_invariant(self);
        }
        self.elapsed >= total_duration()
    }

    /// Player and AI drive stay frozen through 3-2-1; unlock when GO appears.
    pub fn controls_locked(&self) -> (b: bool)
        ensures
            b == (self@ < 3 * BEAT_MS),
    {
        self.elapsed < BEAT_MS * 3
    }

    /// Big HUD label, if still showing.
    pub fn label(&self) -> (l: Option<&'static str>)
        ensures
            match (l, phase_label(phase_at(self@))) {
                (Some(s), Some(t)) => s@ == t,
                (None, None) => true,
                _ => false,
            },
    {
        if self.is_finished() {
            return None;
        }
        let t = self.elapsed;
        if t < BEAT_MS {
            Some("3")
        } else if t < BEAT_MS * 2 {
            Some("2")
        } else if t < BEAT_MS * 3 {
            Some("1")
        } else {
            Some("GO")
        }
    }
}

/// The lights only ever move forward through 3, 2, 1, GO and done: a later
/// time never shows an earlier phase.
pub proof fn lemma_phases_only_advance(a: u64, b: u64)
    requires
        a <= b,
    ensures
        phase_at(a) <= phase_at(b),
{
}

/// Controls are locked exactly while a numeral (3, 2 or 1) is showing; they
/// unlock when GO appears and stay unlocked once the sequence is done.
pub proof fn lemma_locked_while_counting(elapsed: u64)
    ensures
        (elapsed < 3 * BEAT_MS) <==> (phase_at(elapsed) <= 2),
{
}

/// Once finished the countdown stays finished, and a zero step changes nothing.
pub proof fn lemma_tick_keeps_finished(elapsed: u64, dt: u64)
    requires
        elapsed <= total_ms(),
    ensures
        ({
            let next: u64 = if elapsed + dt >= total_ms() { total_ms() } else { (elapsed + dt) as u64 };
            &&& elapsed <= next <= total_ms()
            &&& elapsed >= total_ms() ==> next == total_ms()
            &&& dt == 0 ==> next == elapsed
        }),
{
}

} // verus!
