use redline::lap_callout::{CalloutKind, LapCallout, FINAL_HOLD_MS, FINISH_HOLD_MS, LAP_HOLD_MS, SECTOR_HOLD_MS};
use redline::results::{RaceResults, RESULTS_HOLD_MS};

#[test]
fn final_lap_clears_after_hold() {
    let mut c = LapCallout::final_lap(61_200);
    assert_eq!(c.kind(), CalloutKind::FinalLap { previous_lap: 61_200 });
    assert!(!c.tick(FINAL_HOLD_MS / 2));
    assert!(c.tick(FINAL_HOLD_MS));
    assert!(c.is_finished());
}

#[test]
fn lap_complete_keeps_time() {
    let c = LapCallout::lap_complete(42_500);
    assert_eq!(c.kind(), CalloutKind::LapComplete { lap_time: 42_500 });
}

#[test]
fn sector_best_is_brief() {
    let mut c = LapCallout::sector_best(11_200);
    assert_eq!(c.kind(), CalloutKind::SectorBest { sector_time: 11_200 });
    assert!(!c.tick(SECTOR_HOLD_MS / 2));
    assert!(c.tick(SECTOR_HOLD_MS));
    assert!(c.is_finished());
}

#[test]
fn each_banner_holds_for_its_own_time() {
    let mut lap = LapCallout::lap_complete(1);
    assert!(!lap.tick(LAP_HOLD_MS - 1));
    assert!(lap.tick(1));
    let mut finish = LapCallout::finish();
    assert_eq!(finish.kind(), CalloutKind::Finish);
    assert!(!finish.tick(FINISH_HOLD_MS - 1));
    assert!(finish.tick(1));
    assert!(finish.tick(0));
}

#[test]
fn results_clear_after_hold() {
    let mut board = RaceResults::new(2, 4, 125_000, Some(40_000), Some(41_000));
    assert_eq!(board.place, 2);
    assert_eq!(board.field, 4);
    assert!(!board.tick(RESULTS_HOLD_MS / 2));
    assert!(board.tick(RESULTS_HOLD_MS));
    assert!(board.is_finished());
}

#[test]
fn results_place_and_field_are_at_least_one() {
    let board = RaceResults::new(0, 0, 0, None, None);
    assert_eq!(board.place, 1);
    assert_eq!(board.field, 1);
}
