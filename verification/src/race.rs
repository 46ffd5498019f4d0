//! Lap counting, lap timing and race placing.
//!
//! Times are whole milliseconds. Gates are kept as indices into the track's
//! sample list; deciding whether the craft is inside the next gate is geometry
//! that the caller does, and hands to [`Race::update`] as a flag.
use vstd::prelude::*;
use crate::config;

verus! {

/// What crossing a gate produced.
#[derive(Clone, Copy, Debug, PartialEq, Eq, Structural)]
pub enum RaceEvent {
    /// Completed a lap that was not the race finish. `entering_final` when the
    /// new current lap is the last one.
    LapComplete { lap_time: u64, entering_final: bool },
    /// Crossed the line on the final lap.
    Finished { lap_time: u64 },
}

pub struct Race {
    pub laps_to_win: u32,
    pub lap: u32,
    pub next_checkpoint: usize,
    /// Track sample index of each gate, in driving order; gate 0 is the line.
    pub checkpoints: Vec<usize>,
    pub started: bool,
    pub finished: bool,
    /// Race clock, in milliseconds (it stops at `u64::MAX` rather than wrap).
    pub time: u64,
    pub last_lap_time: Option<u64>,
    pub best_lap: Option<u64>,
    /// Race-clock time at which the lap in progress started.
    pub lap_start: u64,
}

/// Number of gates a race places on a track: the configured count, at least four.
pub open spec fn gate_count(config: config::Race) -> nat {
    if config.checkpoint_count < 4 { 4 } else { config.checkpoint_count as nat }
}

/// Spacing, in track samples, between consecutive gates.
pub open spec fn gate_stride(track_len: nat, count: nat) -> nat {
    if count == 0 || track_len / count < 1 { 1 } else { track_len / count }
}

/// Track sample index of gate `i`.
pub open spec fn gate_index(track_len: nat, count: nat, i: int) -> int {
    (i * gate_stride(track_len, count)) % (track_len as int)
}

pub open spec fn min_u64(a: u64, b: u64) -> u64 {
    if a <= b { a } else { b }
}

/// Best lap after a lap of `lap_time`.
pub open spec fn improved_best(best: Option<u64>, lap_time: u64) -> u64 {
    match best {
        Some(b) => min_u64(b, lap_time),
        None => lap_time,
    }
}

impl Race {
    /// Gates passed since the start of the race: each gate hit counts one,
    /// and a finished race has passed all `laps_to_win` laps of gates.
    pub open spec fn gates_passed(&self) -> int {
        let n = self.checkpoints.len() as int;
        if self.finished {
            self.laps_to_win * n
        } else {
            (self.lap - 1) * n + (self.next_checkpoint + n - 1) % n
        }
    }

    /// The lap counter is on a lap of the race.
    pub open spec fn lap_in_range(&self) -> bool {
        1 <= self.lap <= self.laps_to_win
    }

    /// Race score in millionths: finishers rank above anyone still racing
    /// and earlier finish time ranks higher; otherwise completed laps plus
    /// the fraction of the current lap (clamped below one).
    pub open spec fn score(&self, track_frac: i64) -> int {
        if self.finished {
            1_100_000_000_000 - self.time * 1000
        } else {
            let laps_done: int = if self.lap == 0 { 0 } else { self.lap - 1 };
            let frac: int = if track_frac < 0 { 0 } else if track_frac > 999_999 { 999_999 } else { track_frac as int };
            laps_done * 1_000_000 + frac
        }
    }
    /// Well-formed: at least one gate, the next gate exists, and the lap in
    /// progress did not start after the current time.
    pub open spec fn wf(&self) -> bool {
        &&& self.checkpoints.len() > 0
        &&& self.next_checkpoint < self.checkpoints.len()
        &&& self.lap_start <= self.time
    }

    /// State and event after one physics step of `dt` milliseconds, where
    /// `at_gate` says whether the craft is inside the next gate.
    pub open spec fn advance(self, at_gate: bool, dt: u64) -> (Race, Option<RaceEvent>) {
        if self.finished {
            (self, None)
        } else {
            let time: u64 = if self.started { self.time.saturating_add(dt) } else { self.time };
            if !at_gate {
                (Race { time, ..self }, None)
            } else {
                let lap_start = if self.started { self.lap_start } else { time };
                let next = ((self.next_checkpoint + 1) % (self.checkpoints.len() as int)) as usize;
                if self.next_checkpoint != 0 {
                    (Race { time, started: true, lap_start, next_checkpoint: next, ..self }, None)
                } else {
                    let lap_time = (time - lap_start) as u64;
                    let best = improved_best(self.best_lap, lap_time);
                    if self.lap >= self.laps_to_win {
                        (
                            Race {
                                time,
                                started: true,
                                lap_start: time,
                                next_checkpoint: next,
                                last_lap_time: Some(lap_time),
                                best_lap: Some(best),
                                finished: true,
                                ..self
                            },
                            Some(RaceEvent::Finished { lap_time }),
                        )
                    } else {
                        let lap = (self.lap + 1) as u32;
                        (
                            Race {
                                time,
                                started: true,
                                lap_start: time,
                                next_checkpoint: next,
                                last_lap_time: Some(lap_time),
                                best_lap: Some(best),
                                lap,
                                ..self
                            },
                            Some(RaceEvent::LapComplete { lap_time, entering_final: lap >= self.laps_to_win }),
                        )
                    }
                }
            }
        }
    }

    /// Elapsed time of the lap in progress, or the last lap once stopped.
    pub open spec fn lap_time_spec(&self) -> u64 {
        if !self.started || self.finished {
            match self.last_lap_time {
                Some(t) => t,
                None => 0,
            }
        } else {
            (self.time - self.lap_start) as u64
        }
    }

    /// A race on a track of `track_len` samples, with its gates spread evenly
    /// along the track starting at the line.
    pub fn new(track_len: usize, config: config::Race) -> (r: Race)
        requires
            track_len > 0,
        ensures
            r.wf(),
            r.laps_to_win == config.laps,
            r.lap == 1,
            r.next_checkpoint == 1,
            r.checkpoints@.len() == gate_count(config),
            forall|i: int|
                0 <= i < r.checkpoints@.len() ==> r.checkpoints@[i] == gate_index(
                    track_len as nat,
                    gate_count(config),
                    i,
                ),
            !r.started,
            !r.finished,
            r.time == 0,
            r.lap_start == 0,
            r.last_lap_time is None,
            r.best_lap is None,
            r.gates_passed() == 0,
    {
        let count: usize = if config.checkpoint_count < 4 { 4 } else { config.checkpoint_count as usize };
        let q: usize = track_len / count;
        let stride: usize = if q < 1 { 1 } else { q };
        proof {
            assert(count as nat == gate_count(config));
            assert(stride as nat == gate_stride(track_len as nat, count as nat));
        }
        let mut checkpoints: Vec<usize> = Vec::new();
        let mut i: usize = 0;
        while i < count
            invariant
                0 < count,
                i <= count,
                count as nat == gate_count(config),
                stride as nat == gate_stride(track_len as nat, count as nat),
                stride == 1 || stride == track_len / count,
                track_len > 0,
                checkpoints@.len() == i,
                forall|j: int|
                    0 <= j < i ==> checkpoints@[j] == gate_index(track_len as nat, count as nat, j),
            decreases count - i,
        {
            proof {
                if stride == 1 {
                    assert(i * stride == i) by (nonlinear_arith)
                        requires stride == 1;
                } else {
                    assert(i * stride <= count * (track_len / count)) by (nonlinear_arith)
                        requires i < count, stride == track_len / count;
                    assert(count * (track_len / count) <= track_len) by (nonlinear_arith)
                        requires count > 0;
                }
            }
            let idx: usize = (i * stride) % track_len;
            checkpoints.push(idx);
            i = i + 1;
        }
        let r = Race {
            laps_to_win: config.laps,
            lap: 1,
            next_checkpoint: 1,
            checkpoints,
            started: false,
            finished: false,
            time: 0,
            last_lap_time: None,
            best_lap: None,
            lap_start: 0,
        };
        proof {
            let n = r.checkpoints@.len() as int;
            assert((1 + n - 1) % n == 0) by (nonlinear_arith)
                requires n > 0;
            assert((r.lap - 1) * n == 0) by (nonlinear_arith)
                requires r.lap == 1;
        }
        r
    }

    /// Elapsed time on the lap currently in progress (0 until the race starts).
    pub fn current_lap_time(&self) -> (t: u64)
        requires
            self.wf(),
        ensures
            t == self.lap_time_spec(),
            !self.started && self.last_lap_time is None ==> t == 0,
            self.started && !self.finished ==> t == self.time - self.lap_start,
            (!self.started || self.finished) && self.last_lap_time is Some ==> Some(t)
                == self.last_lap_time,
    {
        if !self.started || self.finished {
            return match self.last_lap_time {
                Some(t) => t,
                None => 0,
            };
        }
        self.time - self.lap_start
    }

    /// 1-based sector index matching the next gate the player must hit.
    pub fn sector(&self) -> (s: usize)
        requires
            self.wf(),
        ensures
            s == self.next_checkpoint + 1,
    {
        self.next_checkpoint + 1
    }

    pub fn sector_count(&self) -> (n: usize)
        ensures
            n == self.checkpoints@.len(),
    {
        self.checkpoints.len()
    }

    /// Advance the race by one step of `dt` milliseconds; `at_gate` says
    /// whether the craft is inside the next gate this step.
    pub fn update(&mut self, at_gate: bool, dt: u64) -> (e: Option<RaceEvent>)
        requires
            old(self).wf(),
        ensures
            final(self).wf(),
            (*final(self), e) == old(self).advance(at_gate, dt),
    {
        if self.finished {
            return None;
        }
        if self.started {
            self.time = self.time.saturating_add(dt);
        }
        if !at_gate {
            return None;
        }
        if !self.started {
            self.started = true;
            self.lap_start = self.time;
        }
        let wrapped = self.next_checkpoint == 0;
        self.next_checkpoint = (self.next_checkpoint + 1) % self.checkpoints.len();
        if !wrapped {
            return None;
        }
        let lap_time = self.time - self.lap_start;
        self.last_lap_time = Some(lap_time);
        self.best_lap = Some(
            match self.best_lap {
                Some(best) => if best <= lap_time { best } else { lap_time },
                None => lap_time,
            },
        );
        self.lap_start = self.time;
        if self.lap >= self.laps_to_win {
            self.finished = true;
            Some(RaceEvent::Finished { lap_time })
        } else {
            self.lap = self.lap + 1;
            let entering_final = self.lap >= self.laps_to_win;
            Some(RaceEvent::LapComplete { lap_time, entering_final })
        }
    }

    /// Back to the grid: lap 1, clock stopped, no lap times; gates are kept.
    pub fn reset(&mut self)
        ensures
            final(self).wf() <== old(self).checkpoints.len() > 1,
            final(self).checkpoints == old(self).checkpoints,
            final(self).laps_to_win == old(self).laps_to_win,
            final(self).lap == 1,
            final(self).next_checkpoint == 1,
            !final(self).started,
            !final(self).finished,
            final(self).time == 0,
            final(self).lap_start == 0,
            final(self).last_lap_time is None,
            final(self).best_lap is None,
    {
        self.lap = 1;
        self.next_checkpoint = 1;
        self.started = false;
        self.finished = false;
        self.time = 0;
        self.last_lap_time = None;
        self.best_lap = None;
        self.lap_start = 0;
    }
    /// Higher means further ahead, in millionths: finished racers beat anyone
    /// still racing; among finishers, earlier race time ranks higher.
    /// `track_frac` is the fraction of the lap covered, in millionths.
    pub fn progress_score(&self, track_frac: i64) -> (s: i128)
        ensures
            s == self.score(track_frac),
    {
        if self.finished {
            return 1_100_000_000_000i128 - (self.time as i128) * 1000;
        }
        let frac: i128 = if track_frac < 0 { 0 } else if track_frac > 999_999 { 999_999 } else { track_frac as i128 };
        let laps_done: i128 = self.lap.saturating_sub(1) as i128;
        laps_done * 1_000_000 + frac
    }
}

/// Each gate hit during a race counts exactly one gate, a lap event comes
/// exactly when the hit is on the line, and the race finishes exactly when
/// the count reaches `laps_to_win` laps of gates; the lap stays in range.
pub proof fn lemma_gate_hit_counts_one(r: Race, dt: u64)
    requires
        r.wf(),
        !r.finished,
        r.lap_in_range(),
    ensures
        ({
            let (r2, e) = r.advance(true, dt);
            &&& r2.wf()
            &&& r2.gates_passed() == r.gates_passed() + 1
            &&& r2.finished <==> r2.gates_passed() == r.laps_to_win * r.checkpoints.len()
            &&& (e is Some <==> r.next_checkpoint == 0)
            &&& (r2.finished <==> e matches Some(RaceEvent::Finished { .. }))
            &&& !r2.finished ==> r2.lap_in_range()
            &&& r2.checkpoints == r.checkpoints
            &&& r2.laps_to_win == r.laps_to_win
        }),
{
    let n = r.checkpoints.len() as int;
    let c = r.next_checkpoint as int;
    let (r2, e) = r.advance(true, dt);
    let l = r.lap as int;
    let lw = r.laps_to_win as int;
    assert(n > 0);
    if c != 0 {
        assert((c + n - 1) % n == c - 1) by (nonlinear_arith)
            requires 0 < c < n;
        if c + 1 < n {
            assert((c + 1) % n == c + 1) by (nonlinear_arith)
                requires 0 <= c + 1 < n;
            assert((c + 1 + n - 1) % n == c) by (nonlinear_arith)
                requires 0 <= c < n;
        } else {
            assert((c + 1) % n == 0) by (nonlinear_arith)
                requires c + 1 == n, n > 0;
            assert((0 + n - 1) % n == n - 1) by (nonlinear_arith)
                requires n > 0;
        }
        assert((l - 1) * n + n <= lw * n) by (nonlinear_arith)
            requires 1 <= l <= lw, n > 0;
        assert((l - 1) * n + c < lw * n) by (nonlinear_arith)
            requires 1 <= l <= lw, n > 0, c < n;
    } else {
        assert((0 + n - 1) % n == n - 1) by (nonlinear_arith)
            requires n > 0;
        assert((l - 1) * n + n == l * n) by (nonlinear_arith);
        if n == 1 {
            assert((1int) % n == 0);
        } else {
            assert((1int) % n == 1) by (nonlinear_arith)
                requires n > 1;
            assert((1 + n - 1) % n == 0) by (nonlinear_arith)
                requires n > 1;
        }
        if l >= lw {
            assert(l == lw);
        } else {
            assert(l * n < lw * n) by (nonlinear_arith)
                requires l < lw, n > 0;
            assert((l + 1 - 1) * n == l * n);
        }
    }
}

/// The race after `hits` consecutive gate hits (zero-length steps).
pub open spec fn drive_through(r: Race, hits: nat) -> Race
    decreases hits,
{
    if hits == 0 {
        r
    } else {
        drive_through(r, (hits - 1) as nat).advance(true, 0).0
    }
}

/// A race at the line on lap one finishes on exactly the
/// `laps_to_win * gate count`-th gate hit, having counted every hit before it.
pub proof fn lemma_race_finishes_after_all_laps(r: Race, hits: nat)
    requires
        r.wf(),
        !r.finished,
        r.lap_in_range(),
        r.gates_passed() == 0,
    ensures
        drive_through(r, hits).finished <==> hits >= r.laps_to_win * r.checkpoints.len(),
        !drive_through(r, hits).finished ==> drive_through(r, hits).gates_passed() == hits,
    decreases hits,
{
    lemma_drive_through_keeps(r, hits);
}

proof fn lemma_drive_through_keeps(r: Race, hits: nat)
    requires
        r.wf(),
        !r.finished,
        r.lap_in_range(),
        r.gates_passed() == 0,
    ensures
        ({
            let d = drive_through(r, hits);
            let total = r.laps_to_win * r.checkpoints.len();
            &&& d.wf()
            &&& d.checkpoints == r.checkpoints
            &&& d.laps_to_win == r.laps_to_win
            &&& (d.finished <==> hits >= total)
            &&& (!d.finished ==> d.lap_in_range() && d.gates_passed() == hits)
        }),
    decreases hits,
{
    assert(r.laps_to_win * r.checkpoints.len() >= 1) by (nonlinear_arith)
        requires r.laps_to_win >= 1, r.checkpoints.len() >= 1;
    if hits > 0 {
        let h1 = (hits - 1) as nat;
        lemma_drive_through_keeps(r, h1);
        let d = drive_through(r, h1);
        if d.finished {
            lemma_finished_race_is_frozen(d, true, 0);
        } else {
            lemma_gate_hit_counts_one(d, 0);
        }
    }
}

/// A finished race is frozen: any further step changes nothing and reports nothing.
pub proof fn lemma_finished_race_is_frozen(r: Race, at_gate: bool, dt: u64)
    requires
        r.finished,
    ensures
        r.advance(at_gate, dt) == (r, None::<RaceEvent>),
{
}

/// A step away from the next gate only runs the clock (once started): no
/// gate is counted and no event is reported.
pub proof fn lemma_no_gate_only_runs_clock(r: Race, dt: u64)
    requires
        !r.finished,
    ensures
        ({
            let (r2, e) = r.advance(false, dt);
            &&& e is None
            &&& r2 == Race { time: if r.started { r.time.saturating_add(dt) } else { r.time }, ..r }
            &&& r2.gates_passed() == r.gates_passed()
        }),
{
}

/// A completed lap records its time as the last lap, and the best lap becomes
/// the smaller of the previous best and this lap, so it never exceeds the last lap.
pub proof fn lemma_best_lap_is_minimum(r: Race, dt: u64)
    requires
        r.wf(),
        !r.finished,
    ensures
        ({
            let (r2, e) = r.advance(true, dt);
            match e {
                Some(RaceEvent::LapComplete { lap_time, .. }) | Some(RaceEvent::Finished { lap_time }) => {
                    &&& r2.last_lap_time == Some(lap_time)
                    &&& r2.best_lap == Some(improved_best(r.best_lap, lap_time))
                    &&& improved_best(r.best_lap, lap_time) <= lap_time
                    &&& (r.best_lap matches Some(b) ==> improved_best(r.best_lap, lap_time) <= b)
                    &&& lap_time == r2.time - (if r.started { r.lap_start } else { r2.time })
                },
                None => r2.best_lap == r.best_lap && r2.last_lap_time == r.last_lap_time,
            }
        }),
{
}

/// A finished racer whose race time is under 100,000 s outranks every racer
/// still on one of the first million laps.
pub proof fn lemma_finisher_beats_field(done: Race, racing: Race, f_done: i64, f_racing: i64)
    requires
        done.finished,
        done.time < 100_000_000,
        !racing.finished,
        racing.lap <= 1_000_000,
    ensures
        done.score(f_done) > racing.score(f_racing),
{
    let laps_done: int = if racing.lap == 0 { 0 } else { racing.lap - 1 };
    assert(laps_done * 1_000_000 <= 999_999 * 1_000_000) by (nonlinear_arith)
        requires 0 <= laps_done <= 999_999;
}

/// Among finishers the earlier race time ranks strictly higher.
pub proof fn lemma_earlier_finish_ranks_higher(a: Race, b: Race, fa: i64, fb: i64)
    requires
        a.finished,
        b.finished,
        a.time < b.time,
    ensures
        a.score(fa) > b.score(fb),
{
}

/// Among racers still on track, a later lap ranks higher whatever the lap
/// fraction; on the same lap the larger (clamped) fraction ranks higher.
pub proof fn lemma_score_orders_by_lap_then_fraction(a: Race, b: Race, fa: i64, fb: i64)
    requires
        !a.finished,
        !b.finished,
        1 <= b.lap,
    ensures
        a.lap > b.lap ==> a.score(fa) > b.score(fb),
        a.lap == b.lap && 0 <= fb < fa < 1_000_000 ==> a.score(fa) > b.score(fb),
{
    if a.lap > b.lap {
        let la: int = a.lap - 1;
        let lb: int = b.lap - 1;
        assert(la * 1_000_000 >= (lb + 1) * 1_000_000) by (nonlinear_arith)
            requires la >= lb + 1;
    }
}

/// Places run from 1 (nobody ahead) to one more than the field size.
pub proof fn lemma_place_in_range(player: i128, scores: Seq<i128>)
    ensures
        count_ahead(player, scores) <= scores.len(),
    decreases scores.len(),
{
    if scores.len() > 0 {
        lemma_place_in_range(player, scores.drop_last());
    }
}

/// A higher score never gives a worse place against the same field.
pub proof fn lemma_place_monotone(lo: i128, hi: i128, scores: Seq<i128>)
    requires
        lo <= hi,
    ensures
        count_ahead(hi, scores) <= count_ahead(lo, scores),
    decreases scores.len(),
{
    if scores.len() > 0 {
        lemma_place_monotone(lo, hi, scores.drop_last());
    }
}

/// Number of scores in `scores` strictly above `player`.
pub open spec fn count_ahead(player: i128, scores: Seq<i128>) -> nat
    decreases scores.len(),
{
    if scores.len() == 0 {
        0
    } else {
        count_ahead(player, scores.drop_last()) + if scores.last() > player { 1nat } else { 0nat }
    }
}

/// 1-based place for the player among `opponent_scores` (higher score = ahead).
pub fn player_place(player_score: i128, opponent_scores: &[i128]) -> (place: usize)
    requires
        opponent_scores@.len() < usize::MAX,
    ensures
        place == 1 + count_ahead(player_score, opponent_scores@),
{
    let mut ahead: usize = 0;
    let mut i: usize = 0;
    while i < opponent_scores.len()
        invariant
            i <= opponent_scores@.len(),
            ahead == count_ahead(player_score, opponent_scores@.take(i as int)),
            ahead <= i,
        decreases opponent_scores@.len() - i,
    {
        proof {
            assert(opponent_scores@.take(i + 1).drop_last() =~= opponent_scores@.take(i as int));
        }
        if opponent_scores[i] > player_score {
            ahead = ahead + 1;
        }
        i = i + 1;
    }
    proof {
        assert(opponent_scores@.take(i as int) =~= opponent_scores@);
    }
    1 + ahead
}

/// Lap time a step reported, if it completed a lap or the race.
pub open spec fn reported_lap(e: Option<RaceEvent>) -> Option<u64> {
    match e {
        Some(RaceEvent::LapComplete { lap_time, .. }) => Some(lap_time),
        Some(RaceEvent::Finished { lap_time }) => Some(lap_time),
        None => None,
    }
}

/// The race and the events of each step after the steps `steps`, each a
/// gate flag and a step length in milliseconds.
pub open spec fn run(r: Race, steps: Seq<(bool, u64)>) -> (Race, Seq<Option<RaceEvent>>)
    decreases steps.len(),
{
    if steps.len() == 0 {
        (r, Seq::empty())
    } else {
        let (r1, es) = run(r, steps.drop_last());
        let (r2, e) = r1.advance(steps.last().0, steps.last().1);
        (r2, es.push(e))
    }
}

/// The best lap never grows, and after any run of steps it is at most every
/// lap time reported along the way.
pub proof fn lemma_best_lap_bounds_every_lap(r: Race, steps: Seq<(bool, u64)>)
    ensures
        ({
            let (f, es) = run(r, steps);
            &&& es.len() == steps.len()
            &&& (r.best_lap matches Some(b0) ==> (f.best_lap matches Some(b) && b <= b0))
            &&& forall|k: int| 0 <= k < es.len() && (#[trigger] reported_lap(es[k])) is Some
                ==> (f.best_lap matches Some(b) && b <= reported_lap(es[k])->0)
        }),
    decreases steps.len(),
{
    if steps.len() > 0 {
        let prefix = steps.drop_last();
        lemma_best_lap_bounds_every_lap(r, prefix);
        let (r1, es1) = run(r, prefix);
        let (r2, e) = r1.advance(steps.last().0, steps.last().1);
        let (f, es) = run(r, steps);
        assert(f == r2 && es == es1.push(e));
        // One step: the best lap is kept, or becomes the smaller of it and
        // the lap just reported.
        assert(reported_lap(e) is None ==> r2.best_lap == r1.best_lap);
        assert(reported_lap(e) matches Some(t) ==> r2.best_lap == Some(improved_best(r1.best_lap, t)));
        assert forall|k: int| 0 <= k < es.len() && (#[trigger] reported_lap(es[k])) is Some
            implies (f.best_lap matches Some(b) && b <= reported_lap(es[k])->0) by {
            if k < es1.len() {
                assert(es[k] == es1[k]);
                assert(reported_lap(es1[k]) is Some);
            }
        }
    }
}

/// Crossing the line mid-race moves the lap counter on by one; the FINAL
/// LAP flag is raised exactly when the new lap is the last one, and the race
/// finishes exactly when the line is crossed on the last lap.
pub proof fn lemma_final_lap_flag(r: Race, dt: u64)
    requires
        r.wf(),
        !r.finished,
        r.lap_in_range(),
        r.next_checkpoint == 0,
    ensures
        ({
            let (r2, e) = r.advance(true, dt);
            &&& (e matches Some(RaceEvent::Finished { .. })) <==> r.lap == r.laps_to_win
            &&& (e matches Some(RaceEvent::LapComplete { entering_final, .. }) ==> {
                &&& r2.lap == r.lap + 1
                &&& r2.lap <= r.laps_to_win
                &&& (entering_final <==> r2.lap == r.laps_to_win)
            })
            &&& e is Some
        }),
{
}

} // verus!
