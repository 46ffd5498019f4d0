use redline::countdown::{StartCountdown, BEAT_MS, GO_HOLD_MS};

#[test]
fn phases_are_3_2_1_go_then_done() {
    let mut cd = StartCountdown::new();
    assert_eq!(cd.label(), Some("3"));
    assert!(cd.controls_locked());

    assert!(!cd.tick(BEAT_MS - 10));
    assert_eq!(cd.label(), Some("3"));

    assert!(!cd.tick(20));
    assert_eq!(cd.label(), Some("2"));
    assert!(cd.controls_locked());

    assert!(!cd.tick(BEAT_MS));
    assert_eq!(cd.label(), Some("1"));
    assert!(cd.controls_locked());

    assert!(!cd.tick(BEAT_MS));
    assert_eq!(cd.label(), Some("GO"));
    assert!(!cd.controls_locked());

    assert!(!cd.tick(GO_HOLD_MS / 2));
    assert_eq!(cd.label(), Some("GO"));

    assert!(cd.tick(GO_HOLD_MS));
    assert!(cd.is_finished());
    assert_eq!(cd.label(), None);
    assert!(!cd.controls_locked());
}

#[test]
fn zero_dt_does_not_finish() {
    let mut cd = StartCountdown::new();
    assert!(!cd.tick(0));
    assert_eq!(cd.label(), Some("3"));
}

#[test]
fn countdown_saturates_at_the_end() {
    let mut cd = StartCountdown::new();
    assert!(cd.tick(u64::MAX));
    assert!(cd.tick(u64::MAX));
    assert_eq!(cd.label(), None);
}

#[test]
fn countdown_time_never_rewinds_and_caps() {
    let mut c = redline::countdown::StartCountdown::new();
    assert!(!c.tick(1000));
    assert!(c.controls_locked());
    assert!(c.tick(u64::MAX));
    assert!(c.tick(0));
    assert_eq!(c.label(), None);
}
