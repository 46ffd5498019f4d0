use redline::vehicle::Recoil;

#[test]
fn bump_damps_drive_to_a_quarter_then_fades() {
    let mut r = Recoil::new();
    assert!(!r.is_recoiling());
    assert_eq!(r.damp(16), 1_000_000);
    r.register_bump();
    assert!(r.is_recoiling());
    assert_eq!(r.recoil_time(), 500);
    assert!(!r.pushable());
    // Full damping on the first step, judged before the step runs down.
    assert_eq!(r.damp(100), 250_000);
    assert_eq!(r.recoil_time(), 400);
    // 0.4 s left: 1 - 0.75 * 0.8 = 0.4 of the target.
    assert_eq!(r.damp(350), 400_000);
    assert_eq!(r.recoil_time(), 50);
    assert!(r.pushable());
    assert_eq!(r.damp(100), 925_000);
    assert_eq!(r.recoil_time(), 0);
    assert!(!r.is_recoiling());
}

#[test]
fn second_bump_does_not_shorten_recoil() {
    let mut r = Recoil::new();
    r.register_bump();
    r.damp(200);
    r.register_bump();
    assert_eq!(r.recoil_time(), 500);
    r.reset();
    assert_eq!(r.recoil_time(), 0);
    assert!(r.pushable());
}
