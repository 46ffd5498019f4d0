use redline::config;
use redline::menu::{kit_hatch, kit_sedan, kit_taxi, MapId, VehicleId};

/// Kit scales are fixed point (thousandths); compare them as real scales.
fn lt(a: u32, b: f32) -> bool {
    (a as f32 / 1000.0) < b
}
fn gt(a: u32, b: f32) -> bool {
    (a as f32 / 1000.0) > b
}

#[test]
fn craft_kits_differ_in_drive_feel() {
    assert!(lt(kit_hatch().body_mass_scale, 1.0));
    assert!(gt(kit_hatch().drive_factor_scale, 1.0));
    assert!(lt(kit_sedan().drive_factor_scale, 1.0));
    assert!(gt(kit_sedan().grip_scale, 1.0));
    assert!(gt(kit_taxi().body_mass_scale, 1.0));
    assert!(lt(kit_taxi().grip_scale, 1.0));
    assert_ne!(kit_hatch().jump_impulse, kit_taxi().jump_impulse);
    assert!(VehicleId::RaceFuture.kit().is_none());
    assert!(VehicleId::Hatchback.kit().is_some());
}

#[test]
fn labels_and_blurbs_name_the_garage() {
    assert_eq!(VehicleId::RaceFuture.label(), "Vector Spear");
    assert_eq!(VehicleId::Taxi.label(), "Stripe Cab");
    assert!(VehicleId::Hatchback.blurb().starts_with("Hot hatch"));
    assert_eq!(MapId::PhobosTight.label(), "Phobos Needle");
    assert!(MapId::OlympusClimb.blurb().starts_with("Volcano climb"));
    assert_eq!(VehicleId::default(), VehicleId::RaceFuture);
    assert_eq!(MapId::default(), MapId::MarsClassic);
}

#[test]
fn maps_override_the_mars_planet() {
    assert_eq!(MapId::MarsClassic.planet(), config::Planet::default());
    let phobos = MapId::PhobosTight.planet();
    assert_eq!(phobos.radius, 55_000);
    assert_eq!(phobos.track_width, 9_500);
    assert_eq!(phobos.seed, 0x50484F42);
    assert_eq!(phobos.subdivisions, config::Planet::default().subdivisions);
    assert_eq!(phobos.gravity, 20_000);
    assert_eq!(MapId::HellasWide.planet().decoration_count, 420);
    assert_eq!(MapId::OlympusClimb.planet().height_amp, 11_500);
}

#[test]
fn menus_list_every_choice_once() {
    assert_eq!(VehicleId::all()[0], VehicleId::RaceFuture);
    assert_eq!(VehicleId::all()[3], VehicleId::Taxi);
    assert_eq!(MapId::all()[0], MapId::MarsClassic);
    assert_eq!(MapId::all()[3], MapId::OlympusClimb);
}
