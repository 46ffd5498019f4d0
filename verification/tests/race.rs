use redline::config;
use redline::race::{player_place, Race, RaceEvent};

/// Positions of a circular 32-sample track of radius 80 m.
fn sample_track() -> Vec<[f32; 3]> {
    (0..32)
        .map(|i| {
            let a = i as f32 / 32.0 * std::f32::consts::TAU;
            [a.sin() * 80.0, 0.0, a.cos() * 80.0]
        })
        .collect()
}

fn normalize(v: [f32; 3]) -> [f32; 3] {
    let len = (v[0] * v[0] + v[1] * v[1] + v[2] * v[2]).sqrt();
    if len == 0.0 {
        [0.0; 3]
    } else {
        [v[0] / len, v[1] / len, v[2] / len]
    }
}

/// Whether `position` lies within the angular gate radius of `target` on the sphere.
fn at_gate(position: [f32; 3], target: [f32; 3]) -> bool {
    let radius = (position[0] * position[0] + position[1] * position[1] + position[2] * position[2])
        .sqrt()
        .max(1.0);
    let gate = (12.0 / radius).max(0.08f32);
    let a = normalize(position);
    let b = normalize(target);
    a[0] * b[0] + a[1] * b[1] + a[2] * b[2] > gate.cos()
}

fn step(race: &mut Race, track: &[[f32; 3]], position: [f32; 3], dt_ms: u64) -> Option<RaceEvent> {
    let target = track[race.checkpoints[race.next_checkpoint]];
    race.update(at_gate(position, target), dt_ms)
}

#[test]
fn completing_circuit_counts_a_lap() {
    let samples = sample_track();
    let mut race = Race::new(samples.len(), config::Race::default());
    assert_eq!(race.lap, 1);
    for position in samples.iter().cycle().take(40) {
        step(&mut race, &samples, *position, 50);
    }
    assert!(race.lap >= 2 || race.finished);
}

#[test]
fn final_lap_and_finish_events() {
    let samples = sample_track();
    let cfg = config::Race { laps: 2, checkpoint_count: 8 };
    let mut race = Race::new(samples.len(), cfg);
    let mut saw_final = false;
    let mut saw_finish = false;
    for position in samples.iter().cycle().take(80) {
        match step(&mut race, &samples, *position, 50) {
            Some(RaceEvent::LapComplete { entering_final: true, .. }) => saw_final = true,
            Some(RaceEvent::Finished { .. }) => saw_finish = true,
            _ => {}
        }
    }
    assert!(saw_final, "should enter final lap");
    assert!(saw_finish, "should finish the race");
    assert!(race.finished);
}

#[test]
fn current_lap_time_ticks_after_start() {
    let samples = sample_track();
    let cfg = config::Race { checkpoint_count: 8, ..Default::default() };
    let mut race = Race::new(samples.len(), cfg);
    assert_eq!(race.current_lap_time(), 0);
    // Hit the first gated checkpoint to start the clock.
    let gate = samples[race.checkpoints[race.next_checkpoint]];
    step(&mut race, &samples, gate, 0);
    assert!(race.started);
    // Stand far from the next gate and accumulate time.
    let away = [-gate[0], -gate[1], -gate[2]];
    for _ in 0..25 {
        assert!(step(&mut race, &samples, away, 50).is_none());
    }
    let t = race.current_lap_time() as f32 / 1000.0;
    assert!((1.2..=1.3).contains(&t), "got {t}");
}

#[test]
fn progress_score_orders_by_lap_then_frac() {
    let samples = sample_track();
    let mut behind = Race::new(samples.len(), config::Race::default());
    let mut ahead = Race::new(samples.len(), config::Race::default());
    ahead.lap = 2;
    assert!(ahead.progress_score(100_000) > behind.progress_score(900_000));
    behind.lap = 2;
    assert!(behind.progress_score(800_000) > ahead.progress_score(100_000));
}

#[test]
fn finished_racer_beats_field_and_earlier_time_wins() {
    let samples = sample_track();
    let mut done_fast = Race::new(samples.len(), config::Race::default());
    let mut done_slow = Race::new(samples.len(), config::Race::default());
    let mut racing = Race::new(samples.len(), config::Race::default());
    done_fast.finished = true;
    done_fast.time = 90_000;
    done_slow.finished = true;
    done_slow.time = 110_000;
    racing.lap = 3;
    assert!(done_fast.progress_score(0) > racing.progress_score(990_000));
    assert!(done_fast.progress_score(0) > done_slow.progress_score(0));
    assert_eq!(
        player_place(
            done_slow.progress_score(0),
            &[done_fast.progress_score(0), racing.progress_score(500_000)]
        ),
        2
    );
}

#[test]
fn reset_clears_best_lap() {
    let samples = sample_track();
    let mut race = Race::new(samples.len(), config::Race::default());
    race.best_lap = Some(40_000);
    race.reset();
    assert_eq!(race.best_lap, None);
}

#[test]
fn new_race_spreads_gates_from_the_line() {
    let race = Race::new(32, config::Race { laps: 3, checkpoint_count: 8 });
    assert_eq!(race.checkpoints, vec![0, 4, 8, 12, 16, 20, 24, 28]);
    assert_eq!(race.sector(), 2);
    assert_eq!(race.sector_count(), 8);
    // Fewer than four gates are raised to four; a short track uses stride 1.
    let short = Race::new(3, config::Race { laps: 1, checkpoint_count: 2 });
    assert_eq!(short.checkpoints, vec![0, 1, 2, 0]);
}

#[test]
fn race_finishes_on_the_last_gate_of_the_last_lap() {
    let mut race = Race::new(32, config::Race { laps: 2, checkpoint_count: 4 });
    let mut events = Vec::new();
    for hit in 1..=8 {
        let e = race.update(true, 1000);
        if hit < 8 {
            assert!(!race.finished);
        }
        if let Some(e) = e {
            events.push((hit, e));
        }
    }
    assert!(race.finished);
    // Lap one is timed from the first gate (hit 1) to the line (hit 4): 3 s.
    assert_eq!(
        events,
        vec![
            (4, RaceEvent::LapComplete { lap_time: 3000, entering_final: true }),
            (8, RaceEvent::Finished { lap_time: 4000 }),
        ]
    );
    assert_eq!(race.best_lap, Some(3000));
    assert_eq!(race.last_lap_time, Some(4000));
    // A finished race ignores further steps.
    assert_eq!(race.update(true, 1000), None);
    assert_eq!(race.time, 7000);
}

#[test]
fn place_counts_strictly_higher_scores() {
    assert_eq!(player_place(10, &[]), 1);
    assert_eq!(player_place(10, &[10, 9, 11, 12]), 3);
}

#[test]
fn best_lap_is_at_most_every_reported_lap() {
    let mut race = Race::new(32, config::Race { laps: 4, checkpoint_count: 4 });
    let mut laps = Vec::new();
    // Lap lengths vary: 4 gates per lap, step lengths change per lap.
    for (lap, step) in [(0, 3000u64), (1, 1000), (2, 2500), (3, 1500)] {
        for _ in 0..4 {
            if let Some(e) = race.update(true, step) {
                match e {
                    RaceEvent::LapComplete { lap_time, .. } | RaceEvent::Finished { lap_time } => laps.push(lap_time),
                }
            }
        }
        let _ = lap;
    }
    let best = race.best_lap.unwrap();
    assert!(!laps.is_empty());
    assert!(laps.iter().all(|&t| best <= t));
    assert_eq!(Some(best), laps.iter().copied().min());
}

#[test]
fn race_clock_stops_at_its_limit() {
    let mut race = Race::new(32, config::Race { laps: 3, checkpoint_count: 4 });
    race.update(true, 0);
    assert!(race.started);
    race.update(false, u64::MAX - 5);
    race.update(false, 100);
    assert_eq!(race.time, u64::MAX);
    assert_eq!(race.current_lap_time(), u64::MAX);
}
