//! Pre-race craft and circuit selection (championship / planet-ribbon fantasy).
use vstd::prelude::*;
use crate::config;
use crate::vehicle::Kit;

verus! {

#[derive(Clone, Copy, Debug, PartialEq, Eq, Structural)]
pub enum VehicleId {
    RaceFuture,
    Hatchback,
    SedanSports,
    Taxi,
}

impl Default for VehicleId {
    fn default() -> (v: Self)
        ensures
            v == VehicleId::RaceFuture,
    {
        VehicleId::RaceFuture
    }
}

// Drive-feel scales are relative to the Vector Spear baseline.
// AI opponents reuse these kits, so player and field share the same personality.

pub open spec fn hatch_kit() -> Kit {
    Kit {
        body_model: "models/hatchback-sports-body.glb",
        wheel_model: "models/wheel-racing.glb",
        tint: [1000, 420, 320, 1000],
        half_track: 320,
        drive_factor_scale: 1280,
        motor_max_force_scale: 1150,
        body_mass_scale: 820,
        wheel_friction_scale: 1120,
        grip_scale: 1180,
        jump_impulse: Some(16500),
    }
}

pub fn kit_hatch() -> (k: Kit)
    ensures
        k == hatch_kit(),
{
    Kit {
        body_model: "models/hatchback-sports-body.glb",
        wheel_model: "models/wheel-racing.glb",
        tint: [1000, 420, 320, 1000],
        half_track: 320,
        drive_factor_scale: 1280,
        motor_max_force_scale: 1150,
        body_mass_scale: 820,
        wheel_friction_scale: 1120,
        grip_scale: 1180,
        jump_impulse: Some(16500),
    }
}

pub open spec fn sedan_kit() -> Kit {
    Kit {
        body_model: "models/sedan-sports-body.glb",
        wheel_model: "models/wheel-dark.glb",
        tint: [420, 720, 1000, 1000],
        half_track: 320,
        drive_factor_scale: 780,
        motor_max_force_scale: 1050,
        body_mass_scale: 1050,
        wheel_friction_scale: 1080,
        grip_scale: 1220,
        jump_impulse: Some(11000),
    }
}

pub fn kit_sedan() -> (k: Kit)
    ensures
        k == sedan_kit(),
{
    Kit {
        body_model: "models/sedan-sports-body.glb",
        wheel_model: "models/wheel-dark.glb",
        tint: [420, 720, 1000, 1000],
        half_track: 320,
        drive_factor_scale: 780,
        motor_max_force_scale: 1050,
        body_mass_scale: 1050,
        wheel_friction_scale: 1080,
        grip_scale: 1220,
        jump_impulse: Some(11000),
    }
}

pub open spec fn taxi_kit() -> Kit {
    Kit {
        body_model: "models/taxi-body.glb",
        wheel_model: "models/wheel-dark.glb",
        tint: [1000, 1000, 1000, 1000],
        half_track: 320,
        drive_factor_scale: 880,
        motor_max_force_scale: 1250,
        body_mass_scale: 1280,
        wheel_friction_scale: 880,
        grip_scale: 860,
        jump_impulse: Some(8000),
    }
}

pub fn kit_taxi() -> (k: Kit)
    ensures
        k == taxi_kit(),
{
    Kit {
        body_model: "models/taxi-body.glb",
        wheel_model: "models/wheel-dark.glb",
        tint: [1000, 1000, 1000, 1000],
        half_track: 320,
        drive_factor_scale: 880,
        motor_max_force_scale: 1250,
        body_mass_scale: 1280,
        wheel_friction_scale: 880,
        grip_scale: 860,
        jump_impulse: Some(8000),
    }
}

impl VehicleId {
    /// Every craft in garage order.
    pub fn all() -> (ids: [VehicleId; 4])
        ensures
            ids@ == seq![VehicleId::RaceFuture, VehicleId::Hatchback, VehicleId::SedanSports, VehicleId::Taxi],
    {
        let ids = [VehicleId::RaceFuture, VehicleId::Hatchback, VehicleId::SedanSports, VehicleId::Taxi];
        proof {
            assert(ids@ =~= seq![VehicleId::RaceFuture, VehicleId::Hatchback, VehicleId::SedanSports, VehicleId::Taxi]);
        }
        ids
    }

    pub fn label(self) -> (s: &'static str)
        ensures
            s@ == match self {
                VehicleId::RaceFuture => "Vector Spear"@,
                VehicleId::Hatchback => "Ember Hatch"@,
                VehicleId::SedanSports => "Ion Coupe"@,
                VehicleId::Taxi => "Stripe Cab"@,
            },
    {
        match self {
            VehicleId::RaceFuture => "Vector Spear",
            VehicleId::Hatchback => "Ember Hatch",
            VehicleId::SedanSports => "Ion Coupe",
            VehicleId::Taxi => "Stripe Cab",
        }
    }

    pub fn blurb(self) -> (s: &'static str)
        ensures
            s@ == match self {
                VehicleId::RaceFuture => "Flagship anti-grav craft — clean lines, championship baseline."@,
                VehicleId::Hatchback => "Hot hatch on a ribbon — light, snappy throttle, sticky tires."@,
                VehicleId::SedanSports => "Low coupe — softer launch, planted grip, long-gear feel."@,
                VehicleId::Taxi => "Championship wildcard — heavy chassis, lazy jump, loose rear."@,
            },
    {
        match self {
            VehicleId::RaceFuture => "Flagship anti-grav craft — clean lines, championship baseline.",
            VehicleId::Hatchback => "Hot hatch on a ribbon — light, snappy throttle, sticky tires.",
            VehicleId::SedanSports => "Low coupe — softer launch, planted grip, long-gear feel.",
            VehicleId::Taxi => "Championship wildcard — heavy chassis, lazy jump, loose rear.",
        }
    }

    /// The craft's kit; the flagship keeps the baseline (no kit).
    pub fn kit(self) -> (k: Option<Kit>)
        ensures
            k == match self {
                VehicleId::RaceFuture => None,
                VehicleId::Hatchback => Some(hatch_kit()),
                VehicleId::SedanSports => Some(sedan_kit()),
                VehicleId::Taxi => Some(taxi_kit()),
            },
    {
        match self {
            VehicleId::RaceFuture => None,
            VehicleId::Hatchback => Some(kit_hatch()),
            VehicleId::SedanSports => Some(kit_sedan()),
            VehicleId::Taxi => Some(kit_taxi()),
        }
    }
}

#[derive(Clone, Copy, Debug, PartialEq, Eq, Structural)]
pub enum MapId {
    MarsClassic,
    PhobosTight,
    HellasWide,
    OlympusClimb,
}

impl Default for MapId {
    fn default() -> (m: Self)
        ensures
            m == MapId::MarsClassic,
    {
        MapId::MarsClassic
    }
}

/// Circuit parameters of each map: Mars is the default planet, the others
/// change size, ribbon width, relief, latitude swing, seed and scenery count.
pub open spec fn map_planet(m: MapId) -> config::Planet {
    match m {
        MapId::MarsClassic => config::Planet::mars(),
        MapId::PhobosTight => config::Planet {
            radius: 55_000,
            track_width: 9_500,
            height_amp: 5_500,
            track_lat_amp: 220,
            seed: 0x50484F42,
            decoration_count: 220,
            ..config::Planet::mars()
        },
        MapId::HellasWide => config::Planet {
            radius: 95_000,
            track_width: 20_000,
            height_amp: 6_000,
            track_lat_amp: 240,
            seed: 0x48454C4C,
            decoration_count: 420,
            ..config::Planet::mars()
        },
        MapId::OlympusClimb => config::Planet {
            radius: 82_000,
            track_width: 13_000,
            height_amp: 11_500,
            track_lat_amp: 420,
            seed: 0x4F4C594D,
            decoration_count: 380,
            ..config::Planet::mars()
        },
    }
}

impl MapId {
    /// Every circuit in menu order.
    pub fn all() -> (ids: [MapId; 4])
        ensures
            ids@ == seq![MapId::MarsClassic, MapId::PhobosTight, MapId::HellasWide, MapId::OlympusClimb],
    {
        let ids = [MapId::MarsClassic, MapId::PhobosTight, MapId::HellasWide, MapId::OlympusClimb];
        proof {
            assert(ids@ =~= seq![MapId::MarsClassic, MapId::PhobosTight, MapId::HellasWide, MapId::OlympusClimb]);
        }
        ids
    }

    pub fn label(self) -> (s: &'static str)
        ensures
            s@ == match self {
                MapId::MarsClassic => "Mars Equator"@,
                MapId::PhobosTight => "Phobos Needle"@,
                MapId::HellasWide => "Hellas Sweep"@,
                MapId::OlympusClimb => "Olympus Ascent"@,
            },
    {
        match self {
            MapId::MarsClassic => "Mars Equator",
            MapId::PhobosTight => "Phobos Needle",
            MapId::HellasWide => "Hellas Sweep",
            MapId::OlympusClimb => "Olympus Ascent",
        }
    }

    pub fn blurb(self) -> (s: &'static str)
        ensures
            s@ == match self {
                MapId::MarsClassic => "Flagship circuit — the rusty equatorial ribbon that started it all."@,
                MapId::PhobosTight => "Moonlet sprint — thin ribbon, no room to breathe."@,
                MapId::HellasWide => "Basin flyer — wide line for high-speed drafts."@,
                MapId::OlympusClimb => "Volcano climb — hard latitude swings and steep walls."@,
            },
    {
        match self {
            MapId::MarsClassic => "Flagship circuit — the rusty equatorial ribbon that started it all.",
            MapId::PhobosTight => "Moonlet sprint — thin ribbon, no room to breathe.",
            MapId::HellasWide => "Basin flyer — wide line for high-speed drafts.",
            MapId::OlympusClimb => "Volcano climb — hard latitude swings and steep walls.",
        }
    }

    pub fn planet(self) -> (p: config::Planet)
        ensures
            p == map_planet(self),
    {
        match self {
            MapId::MarsClassic => config::Planet::default(),
            MapId::PhobosTight => config::Planet {
                radius: 55_000,
                track_width: 9_500,
                height_amp: 5_500,
                track_lat_amp: 220,
                seed: 0x50484F42,
                decoration_count: 220,
                ..config::Planet::default()
            },
            MapId::HellasWide => config::Planet {
                radius: 95_000,
                track_width: 20_000,
                height_amp: 6_000,
                track_lat_amp: 240,
                seed: 0x48454C4C,
                decoration_count: 420,
                ..config::Planet::default()
            },
            MapId::OlympusClimb => config::Planet {
                radius: 82_000,
                track_width: 13_000,
                height_amp: 11_500,
                track_lat_amp: 420,
                seed: 0x4F4C594D,
                decoration_count: 380,
                ..config::Planet::default()
            },
        }
    }
}

/// Every garage craft but the flagship changes the drive feel: the hatch is
/// lighter and punchier, the sedan softer but grippier, the taxi heavier and
/// looser; the flagship alone keeps the baseline.
pub proof fn lemma_kits_differ_in_drive_feel()
    ensures
        hatch_kit().body_mass_scale < 1000 && hatch_kit().drive_factor_scale > 1000,
        sedan_kit().drive_factor_scale < 1000 && sedan_kit().grip_scale > 1000,
        taxi_kit().body_mass_scale > 1000 && taxi_kit().grip_scale < 1000,
        hatch_kit().jump_impulse != taxi_kit().jump_impulse,
{
}

} // verus!
