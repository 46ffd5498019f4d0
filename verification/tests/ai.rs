use redline::ai::{aim_sample, look_ahead, respawn_sample, speed_mode, SpeedMode, StuckWatch};

#[test]
fn crawling_driver_is_respawned_after_two_and_a_half_seconds() {
    let mut w = StuckWatch::new();
    // 25 slow steps of 0.1 s reach exactly 2.5 s: not yet.
    for _ in 0..25 {
        assert!(!w.step(400, 100));
    }
    assert_eq!(w.stuck_time, 2500);
    // Long frames count only 0.1 s each.
    assert!(w.step(400, 1000));
    assert_eq!(w.stuck_time, 0);
}

#[test]
fn moving_clears_the_crawl_count() {
    let mut w = StuckWatch::new();
    for _ in 0..20 {
        assert!(!w.step(999, 50));
    }
    assert_eq!(w.stuck_time, 1000);
    assert!(!w.step(1000, 50));
    assert_eq!(w.stuck_time, 0);
}

#[test]
fn aim_point_grows_with_speed_and_wraps() {
    assert_eq!(look_ahead(0), 8);
    // 10 m/s: 8 + floor(3.4) = 11.
    assert_eq!(look_ahead(10_000), 11);
    assert_eq!(look_ahead(35_294), 19);
    assert_eq!(look_ahead(35_295), 20);
    assert_eq!(look_ahead(u32::MAX), 20);
    assert_eq!(aim_sample(0, 10_000, 100), 11);
    assert_eq!(aim_sample(95, 0, 100), 3);
    assert_eq!(aim_sample(0, 0, 5), 3);
}

#[test]
fn speed_regimes() {
    assert_eq!(speed_mode(true, 0, 30_000), SpeedMode::Recoil);
    assert_eq!(speed_mode(false, 33_601, 30_000), SpeedMode::Coast);
    assert_eq!(speed_mode(false, 33_600, 30_000), SpeedMode::Cruise);
    assert_eq!(speed_mode(false, 0, 0), SpeedMode::Cruise);
}

#[test]
fn stuck_driver_respawns_three_samples_ahead() {
    assert_eq!(respawn_sample(10, 100), 13);
    assert_eq!(respawn_sample(98, 100), 1);
    assert_eq!(respawn_sample(0, 2), 1);
}
