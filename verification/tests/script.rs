use redline::control::{Input, Key, KeyAction};
use redline::trace::Script;

#[test]
fn offroad_script_turns_then_returns() {
    let (throttle, steer) = Script::Offroad.analog(2000, 0, 5000);
    assert!(throttle as f32 / 1000.0 > 0.5);
    assert!(steer as f32 / 1000.0 > 0.5);
    let (_, return_steer) = Script::Offroad.analog(5000, -800, 6000);
    assert!(return_steer < 0);
}

#[test]
fn scripts_parse_by_name() {
    for s in [Script::Accel, Script::Steer, Script::Offroad, Script::Lap] {
        assert_eq!(Script::parse(s.as_str()), Some(s));
    }
    assert_eq!(Script::parse("drift"), None);
    assert_eq!(Script::Offroad.as_str(), "offroad");
}

#[test]
fn script_commands_follow_the_timeline() {
    assert_eq!(Script::Accel.analog(0, 500, 0), (1000, 0));
    assert_eq!(Script::Steer.analog(1199, 0, 0), (1000, 0));
    assert_eq!(Script::Steer.analog(1200, 0, 0), (1000, 850));
    assert_eq!(Script::Offroad.analog(1000, 0, 0), (1000, 0));
    // Close to the road the gain is 1.6; off it, 1.0.
    assert_eq!(Script::Offroad.analog(4000, 100, 0), (1000, 160));
    assert_eq!(Script::Offroad.analog(4000, 100, 1000), (1000, 100));
    assert_eq!(Script::Lap.analog(0, 100, 0), (1000, 170));
    assert_eq!(Script::Lap.analog(0, -900, 0), (1000, -1000));
}

#[test]
fn keys_map_to_targets() {
    let mut input = Input::default();
    assert_eq!((input.throttle_target(), input.steering_target()), (0, 0));
    input.throttle_forward = true;
    input.steer_right = true;
    assert_eq!((input.throttle_target(), input.steering_target()), (1000, -1000));
    input.throttle_reverse = true;
    input.steer_left = true;
    assert_eq!((input.throttle_target(), input.steering_target()), (0, 0));
    input.throttle_forward = false;
    input.steer_right = false;
    assert_eq!((input.throttle_target(), input.steering_target()), (-350, 1000));
}

#[test]
fn key_events_hold_and_trigger() {
    let mut input = Input::default();
    assert_eq!(input.on_key(Key::KeyW, true, true), KeyAction::Nothing);
    assert!(input.throttle_forward);
    assert_eq!(input.on_key(Key::ArrowLeft, true, true), KeyAction::Nothing);
    assert!(input.steer_left);
    assert_eq!(input.on_key(Key::ArrowUp, false, true), KeyAction::Nothing);
    assert!(!input.throttle_forward);
    assert_eq!(input.on_key(Key::KeyR, true, true), KeyAction::Respawn);
    assert_eq!(input.on_key(Key::KeyR, false, true), KeyAction::Nothing);
    assert_eq!(input.on_key(Key::Space, true, true), KeyAction::Jump);
    assert_eq!(input.on_key(Key::Comma, true, true), KeyAction::RollLeft);
    assert_eq!(input.on_key(Key::Period, true, true), KeyAction::RollRight);
    assert_eq!(input.on_key(Key::Escape, true, true), KeyAction::Quit);
    assert_eq!(input.on_key(Key::Escape, true, false), KeyAction::Nothing);
    assert_eq!(input.on_key(Key::Other, true, true), KeyAction::Nothing);
    input.on_key(Key::KeyS, true, true);
    input.on_key(Key::KeyD, true, true);
    input.release_all();
    assert_eq!(input, Input::default());
}
