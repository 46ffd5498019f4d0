//! Canned drive scripts used by automated traces.
//!
//! Analog commands and their inputs are in thousandths: throttle and steer in
//! [-1000, 1000], heading error in milliradians, off-track distance in
//! millimetres, script time in milliseconds.
use vstd::prelude::*;
use crate::helpers::str_eq;

verus! {

#[derive(Clone, Copy, Debug, PartialEq, Eq, Structural)]
pub enum Script {
    Accel,
    Steer,
    Offroad,
    Lap,
}

/// Script named `name`, if any.
pub open spec fn script_named(name: Seq<char>) -> Option<Script> {
    if name == "accel"@ {
        Some(Script::Accel)
    } else if name == "steer"@ {
        Some(Script::Steer)
    } else if name == "offroad"@ {
        Some(Script::Offroad)
    } else if name == "lap"@ {
        Some(Script::Lap)
    } else {
        None
    }
}

/// Name of a script.
pub open spec fn script_name(s: Script) -> Seq<char> {
    match s {
        Script::Accel => "accel"@,
        Script::Steer => "steer"@,
        Script::Offroad => "offroad"@,
        Script::Lap => "lap"@,
    }
}

/// `v` limited to [-1000, 1000].
pub open spec fn clamp_unit(v: int) -> int {
    if v < -1000 { -1000 } else if v > 1000 { 1000 } else { v }
}

/// `heading_error * gain / 1000` (gain in thousandths), rounded toward zero.
pub open spec fn scaled(heading_error: i32, gain: int) -> int {
    let p = heading_error * gain;
    if p >= 0 { p / 1000 } else { -((-p) / 1000) }
}

/// Throttle and steer of a script at time `t`.
pub open spec fn script_command(s: Script, t: u64, heading_error: i32, off_track: i32) -> (int, int) {
    match s {
        Script::Accel => (1000, 0),
        Script::Steer => (1000, if t >= 1200 { 850 } else { 0 }),
        Script::Offroad => {
            if t < 1100 {
                (1000, 0)
            } else if t < 3600 {
                (1000, 900)
            } else {
                let gain: int = if off_track > 400 { 1000 } else { 1600 };
                (1000, clamp_unit(scaled(heading_error, gain)))
            }
        },
        Script::Lap => (1000, clamp_unit(scaled(heading_error, 1700))),
    }
}

fn clamp_i64_unit(v: i64) -> (r: i32)
    ensures
        r == clamp_unit(v as int),
{
    if v < -1000 {
        -1000
    } else if v > 1000 {
        1000
    } else {
        v as i32
    }
}

fn scale(heading_error: i32, gain: i64) -> (r: i64)
    requires
        0 <= gain <= 2000,
    ensures
        r == scaled(heading_error, gain as int),
{
    proof {
        assert(-0x8000_0000 * 2000 <= heading_error * gain <= 0x7fff_ffff * 2000) by (nonlinear_arith)
            requires
                0 <= gain <= 2000,
                -0x8000_0000 <= heading_error <= 0x7fff_ffff;
    }
    let p: i64 = heading_error as i64 * gain;
    if p >= 0 {
        p / 1000
    } else {
        -((-p) / 1000)
    }
}

impl Script {
    pub fn parse(name: &str) -> (s: Option<Self>)
        ensures
            s == script_named(name@),
    {
        if str_eq(name, "accel") {
            Some(Script::Accel)
        } else if str_eq(name, "steer") {
            Some(Script::Steer)
        } else if str_eq(name, "offroad") {
            Some(Script::Offroad)
        } else if str_eq(name, "lap") {
            Some(Script::Lap)
        } else {
            None
        }
    }

    pub fn as_str(self) -> (s: &'static str)
        ensures
            s@ == script_name(self),
    {
        match self {
            Script::Accel => "accel",
            Script::Steer => "steer",
            Script::Offroad => "offroad",
            Script::Lap => "lap",
        }
    }

    /// Analog throttle/steer in [-1000, 1000] for a canned trajectory at
    /// script time `t` (ms), given the heading error (mrad) to the road
    /// ahead and the distance (mm) beyond the road edge.
    pub fn analog(&self, t: u64, heading_error: i32, off_track: i32) -> (cmd: (i32, i32))
        ensures
            (cmd.0 as int, cmd.1 as int) == script_command(*self, t, heading_error, off_track),
    {
        match *self {
            Script::Accel => (1000, 0),
            Script::Steer => (1000, if t >= 1200 { 850 } else { 0 }),
            Script::Offroad => {
                if t < 1100 {
                    (1000, 0)
                } else if t < 3600 {
                    (1000, 900)
                } else {
                    let gain: i64 = if off_track > 400 { 1000 } else { 1600 };
                    (1000, clamp_i64_unit(scale(heading_error, gain)))
                }
            },
            Script::Lap => (1000, clamp_i64_unit(scale(heading_error, 1700))),
        }
    }
}

/// Parsing a script's own name gives the script back.
pub proof fn lemma_parse_inverts_as_str(s: Script)
    ensures
        script_named(script_name(s)) == Some(s),
{
    reveal_strlit("accel");
    reveal_strlit("steer");
    reveal_strlit("offroad");
    reveal_strlit("lap");
    assert("accel"@[0] != "steer"@[0]);
    assert("accel"@[0] != "offroad"@[0]);
    assert("accel"@[0] != "lap"@[0]);
    assert("steer"@[0] != "offroad"@[0]);
    assert("steer"@[0] != "lap"@[0]);
    assert("offroad"@[0] != "lap"@[0]);
}

/// Every script holds full throttle, and every steer command is within [-1000, 1000].
pub proof fn lemma_commands_in_range(s: Script, t: u64, heading_error: i32, off_track: i32)
    ensures
        script_command(s, t, heading_error, off_track).0 == 1000,
        -1000 <= script_command(s, t, heading_error, off_track).1 <= 1000,
{
}

/// The lap and off-road scripts steer toward the road: never against the sign
/// of the heading error.
pub proof fn lemma_steers_toward_heading(t: u64, heading_error: i32, off_track: i32)
    ensures
        heading_error >= 0 ==> script_command(Script::Lap, t, heading_error, off_track).1 >= 0,
        heading_error <= 0 ==> script_command(Script::Lap, t, heading_error, off_track).1 <= 0,
        t >= 3600 && heading_error >= 0 ==> script_command(Script::Offroad, t, heading_error, off_track).1 >= 0,
        t >= 3600 && heading_error <= 0 ==> script_command(Script::Offroad, t, heading_error, off_track).1 <= 0,
{
    assert(heading_error >= 0 ==> heading_error * 1700 >= 0) by (nonlinear_arith);
    assert(heading_error <= 0 ==> heading_error * 1700 <= 0) by (nonlinear_arith);
    assert(heading_error >= 0 ==> heading_error * 1600 >= 0) by (nonlinear_arith);
    assert(heading_error <= 0 ==> heading_error * 1600 <= 0) by (nonlinear_arith);
    assert(heading_error >= 0 ==> heading_error * 1000 >= 0) by (nonlinear_arith);
    assert(heading_error <= 0 ==> heading_error * 1000 <= 0) by (nonlinear_arith);
}

} // verus!
