//! Tunables for a circuit and a race.
//!
//! Real-valued quantities are held in fixed point: thousandths of the unit
//! (a `radius` of `80_000` is 80 m, a `track_lat_amp` of `280` is 0.28 rad).
use vstd::prelude::*;

verus! {

/// Procedural planet parameters, in thousandths where the quantity is real.
#[derive(Clone, Copy, Debug, PartialEq, Eq, Structural)]
pub struct Planet {
    /// Mean radius, in millimetres.
    pub radius: u32,
    pub subdivisions: u32,
    /// Terrain relief amplitude, in millimetres.
    pub height_amp: u32,
    /// Width of the driving ribbon, in millimetres.
    pub track_width: u32,
    /// Latitude swing of the ribbon, in milliradians.
    pub track_lat_amp: u32,
    /// Radial gravity, in mm/s².
    pub gravity: u32,
    pub seed: u32,
    pub decoration_count: u32,
}

impl Planet {
    /// The flagship Mars circuit.
    pub open spec fn mars() -> Planet {
        Planet {
            radius: 80_000,
            subdivisions: 5,
            height_amp: 7_200,
            track_width: 14_000,
            track_lat_amp: 280,
            gravity: 20_000,
            seed: 0x4D415253,
            decoration_count: 360,
        }
    }
}

impl Default for Planet {
    fn default() -> (p: Self)
        ensures
            p == Planet::mars(),
    {
        Planet {
            radius: 80_000,
            subdivisions: 5,
            height_amp: 7_200,
            track_width: 14_000,
            track_lat_amp: 280,
            gravity: 20_000,
            seed: 0x4D415253,
            decoration_count: 360,
        }
    }
}

/// Race length and gate count.
#[derive(Clone, Copy, Debug, PartialEq, Eq, Structural)]
pub struct Race {
    pub laps: u32,
    pub checkpoint_count: u32,
}

impl Default for Race {
    fn default() -> (r: Self)
        ensures
            r.laps == 3,
            r.checkpoint_count == 16,
    {
        Race { laps: 3, checkpoint_count: 16 }
    }
}

} // verus!
