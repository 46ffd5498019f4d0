//! Game-loop signals.
use vstd::prelude::*;
use vstd::string::{StrSliceExecFns, StringExecFns};
use crate::helpers::{parse_u32, spec_parse_u32, str_eq};
use crate::trace::{script_name, script_named, Script};
use crate::menu::{hatch_kit, kit_hatch, kit_sedan, kit_taxi, sedan_kit, taxi_kit};
use crate::vehicle::Kit;
use std::collections::HashSet;

verus! {

/// Returned by the event handler when the window should close.
#[derive(Clone, Copy, Debug, PartialEq, Eq, Structural)]
pub struct QuitEvent;

/// The craft pair a contact is between, smaller id first, when both bodies
/// belong to crafts and the crafts differ.
pub open spec fn contact_pair(c: (Option<usize>, Option<usize>)) -> Option<(usize, usize)> {
    match c {
        (Some(a), Some(b)) => if a < b {
            Some((a, b))
        } else if b < a {
            Some((b, a))
        } else {
            None
        },
        _ => None,
    }
}

broadcast use vstd::std_specs::hash::group_hash_axioms;

/// Set key of a craft pair.
pub open spec fn pair_key(p: (usize, usize)) -> u128 {
    (p.0 * 0x1_0000_0000_0000_0000 + p.1) as u128
}

proof fn lemma_pair_key_injective(p: (usize, usize), q: (usize, usize))
    requires
        pair_key(p) == pair_key(q),
    ensures
        p == q,
{
    let (a, b, c, d) = (p.0 as int, p.1 as int, q.0 as int, q.1 as int);
    assert(0 <= b < 0x1_0000_0000_0000_0000 && 0 <= d < 0x1_0000_0000_0000_0000);
    assert(0 <= a * 0x1_0000_0000_0000_0000 + b < 0x1_0000_0000_0000_0000_0000_0000_0000_0000) by (nonlinear_arith)
        requires 0 <= a < 0x1_0000_0000_0000_0000, 0 <= b < 0x1_0000_0000_0000_0000;
    assert(0 <= c * 0x1_0000_0000_0000_0000 + d < 0x1_0000_0000_0000_0000_0000_0000_0000_0000) by (nonlinear_arith)
        requires 0 <= c < 0x1_0000_0000_0000_0000, 0 <= d < 0x1_0000_0000_0000_0000;
    assert(a * 0x1_0000_0000_0000_0000 + b == c * 0x1_0000_0000_0000_0000 + d);
    if a < c {
        assert(a * 0x1_0000_0000_0000_0000 + 0x1_0000_0000_0000_0000 <= c * 0x1_0000_0000_0000_0000) by (nonlinear_arith)
            requires a < c;
    } else if c < a {
        assert(c * 0x1_0000_0000_0000_0000 + 0x1_0000_0000_0000_0000 <= a * 0x1_0000_0000_0000_0000) by (nonlinear_arith)
            requires c < a;
    }
}

/// Craft pairs that bumped this step: one entry per unordered pair of
/// different crafts that touched, given each contact as the owning craft of
/// its two bodies (`None` for scenery).
pub fn bump_pairs(contacts: &[(Option<usize>, Option<usize>)]) -> (pairs: Vec<(usize, usize)>)
    ensures
        forall|p: (usize, usize)|
            pairs@.contains(p) <==> exists|i: int|
                0 <= i < contacts@.len() && contact_pair(#[trigger] contacts@[i]) == Some(p),
        forall|i: int, j: int| 0 <= i < j < pairs@.len() ==> pairs@[i] != pairs@[j],
{
    let mut pairs: Vec<(usize, usize)> = Vec::new();
    let mut seen: HashSet<u128> = HashSet::new();
    let mut i: usize = 0;
    while i < contacts.len()
        invariant
            i <= contacts@.len(),
            forall|q: (usize, usize)| #[trigger] pairs@.contains(q) <==> seen@.contains(pair_key(q)),
            forall|p: (usize, usize)|
                pairs@.contains(p) <==> exists|k: int|
                    0 <= k < i && contact_pair(#[trigger] contacts@[k]) == Some(p),
            forall|x: int, y: int| 0 <= x < y < pairs@.len() ==> pairs@[x] != pairs@[y],
        decreases contacts@.len() - i,
    {
        let c = contacts[i];
        let pair: Option<(usize, usize)> = match c {
            (Some(a), Some(b)) => if a < b {
                Some((a, b))
            } else if b < a {
                Some((b, a))
            } else {
                None
            },
            _ => None,
        };
        assert(pair == contact_pair(contacts@[i as int]));
        let ghost before = pairs@;
        if let Some(p) = pair {
            let key: u128 = p.0 as u128 * 0x1_0000_0000_0000_0000u128 + p.1 as u128;
            assert(key == pair_key(p));
            let ghost seen_before = seen@;
            let fresh = seen.insert(key);
            proof {
                assert forall|q: (usize, usize)| #[trigger] pairs@.contains(q) || q == p <==> seen@.contains(pair_key(q)) by {
                    if pair_key(q) == key {
                        lemma_pair_key_injective(q, p);
                    }
                }
                if !fresh {
                    assert(seen_before.contains(pair_key(p)));
                    assert(before.contains(p));
                } else {
                    assert(!before.contains(p));
                }
            }
            if fresh {
                pairs.push(p);
                proof {
                    assert forall|q: (usize, usize)| #[trigger] pairs@.contains(q) <==> seen@.contains(pair_key(q)) by {
                        if before.contains(q) {
                            let k = choose|k: int| 0 <= k < before.len() && before[k] == q;
                            assert(pairs@[k] == q);
                        }
                        if q == p {
                            assert(pairs@[before.len() as int] == q);
                        }
                        if pairs@.contains(q) {
                            let k = choose|k: int| 0 <= k < pairs@.len() && pairs@[k] == q;
                            if k < before.len() {
                                assert(before.contains(q));
                            }
                        }
                    }
                    assert forall|x: int, y: int| 0 <= x < y < pairs@.len() implies pairs@[x] != pairs@[y] by {
                        if y == pairs@.len() - 1 {
                            assert(before[x] != p);
                        }
                    }
                }
            }
        }
        proof {
            assert forall|q: (usize, usize)|
                pairs@.contains(q) <==> exists|k: int|
                    0 <= k < i + 1 && contact_pair(#[trigger] contacts@[k]) == Some(q) by {
                let now_q = contact_pair(contacts@[i as int]) == Some(q);
                assert(pairs@.contains(q) <==> (before.contains(q) || now_q)) by {
                    match pair {
                        Some(p) => {
                            if pairs@ == before {
                                if now_q {
                                    assert(before.contains(p));
                                }
                            } else {
                                assert(pairs@ == before.push(p));
                                if pairs@.contains(q) && !before.contains(q) {
                                    let k = choose|k: int| 0 <= k < pairs@.len() && pairs@[k] == q;
                                    assert(k == before.len());
                                }
                                if now_q {
                                    assert(pairs@[before.len() as int] == q);
                                }
                                if before.contains(q) {
                                    let k = choose|k: int| 0 <= k < before.len() && before[k] == q;
                                    assert(pairs@[k] == q);
                                }
                            }
                        },
                        None => {},
                    }
                }
                if exists|k: int| 0 <= k < i + 1 && contact_pair(#[trigger] contacts@[k]) == Some(q) {
                    let k = choose|k: int| 0 <= k < i + 1 && contact_pair(#[trigger] contacts@[k]) == Some(q);
                    if k < i {
                        assert(before.contains(q));
                    }
                }
                if before.contains(q) {
                    let k = choose|k: int| 0 <= k < i && contact_pair(#[trigger] contacts@[k]) == Some(q);
                    assert(0 <= k < i + 1);
                }
            }
        }
        i = i + 1;
    }
    pairs
}

/// Command-line settings of a run.
#[derive(Debug)]
pub struct Cli {
    /// Frames to render before quitting (smoke test).
    pub smoke_frames: Option<u32>,
    /// Where to write the drive trace.
    pub record_path: Option<String>,
    /// Canned drive script replacing the keyboard.
    pub script: Option<Script>,
    /// Text given after the last `--seconds` (a decimal number of seconds).
    pub seconds_text: Option<String>,
}

/// Why the command line was refused.
#[derive(Debug, PartialEq, Eq)]
pub enum CliError {
    /// `--script` named no known script.
    UnknownScript(String),
    /// `REDLINE_SMOKE` is neither empty, `1`, nor a frame count.
    BadSmokeEnv(String),
}

/// Settings as plain values: smoke frames, record path, script, seconds text.
pub type CliModel = (Option<u32>, Option<Seq<char>>, Option<Script>, Option<Seq<char>>);

pub open spec fn opt_text(o: Option<String>) -> Option<Seq<char>> {
    match o {
        Some(s) => Some(s@),
        None => None,
    }
}

impl Cli {
    pub open spec fn model(&self) -> CliModel {
        (self.smoke_frames, opt_text(self.record_path), self.script, opt_text(self.seconds_text))
    }
}

/// Frame count given after `--smoke`: the number when it parses, else 20.
pub open spec fn smoke_value(next: Option<Seq<char>>) -> u32 {
    match next {
        Some(t) => match spec_parse_u32(t) {
            Some(v) => v,
            None => 20,
        },
        None => 20,
    }
}

/// Settings after reading `args[i..]` on top of `acc`. Each flag takes the
/// next argument as its value (when there is one); a later flag overrides an
/// earlier one; unknown arguments are skipped. An unknown script name (a
/// missing one means `lap`) stops with that name.
pub open spec fn scan_args(args: Seq<Seq<char>>, i: int, acc: CliModel) -> Result<CliModel, Seq<char>>
    decreases args.len() - i,
{
    if i < 0 || i >= args.len() {
        Ok(acc)
    } else {
        let a = args[i];
        let next: Option<Seq<char>> = if i + 1 < args.len() { Some(args[i + 1]) } else { None };
        let after = if i + 1 < args.len() { i + 2 } else { i + 1 };
        if a == "--smoke"@ {
            scan_args(args, after, (Some(smoke_value(next)), acc.1, acc.2, acc.3))
        } else if a == "--record"@ {
            scan_args(args, after, (acc.0, next, acc.2, acc.3))
        } else if a == "--script"@ {
            let name = match next {
                Some(t) => t,
                None => "lap"@,
            };
            match script_named(name) {
                Some(sc) => scan_args(args, after, (acc.0, acc.1, Some(sc), acc.3)),
                None => Err(name),
            }
        } else if a == "--seconds"@ {
            scan_args(args, after, (acc.0, acc.1, acc.2, next))
        } else {
            scan_args(args, i + 1, acc)
        }
    }
}

/// Smoke frames from `REDLINE_SMOKE` (`None` when unset): empty or `1`
/// means 20, otherwise it must be a frame count.
pub open spec fn smoke_from_env(env: Option<Seq<char>>) -> Result<Option<u32>, Seq<char>> {
    match env {
        None => Ok(None),
        Some(v) => if v.len() == 0 || v == "1"@ {
            Ok(Some(20))
        } else {
            match spec_parse_u32(v) {
                Some(n) => Ok(Some(n)),
                None => Err(v),
            }
        },
    }
}

/// Trace file of a script run: `/tmp/redline-<script>.csv`.
pub open spec fn default_record_path(sc: Script) -> Seq<char> {
    "/tmp/redline-"@ + script_name(sc) + ".csv"@
}

/// Settings read from `args` alone, before `REDLINE_SMOKE` and defaults.
pub open spec fn scanned(args: Seq<Seq<char>>) -> Result<CliModel, Seq<char>> {
    scan_args(args, 0, (None, None, None, None))
}

/// The settings of a run from its arguments and `REDLINE_SMOKE`, or `None`
/// when either is refused. A script run records to its default trace file
/// unless told otherwise.
pub open spec fn cli_model(args: Seq<Seq<char>>, smoke_env: Option<Seq<char>>) -> Option<CliModel> {
    match scanned(args) {
        Err(_) => None,
        Ok(m) => {
            let smoke = if m.0 is Some { Ok(m.0) } else { smoke_from_env(smoke_env) };
            match smoke {
                Err(_) => None,
                Ok(sm) => {
                    let record = match (m.1, m.2) {
                        (None, Some(sc)) => Some(default_record_path(sc)),
                        _ => m.1,
                    };
                    Some((sm, record, m.2, m.3))
                },
            }
        },
    }
}

pub open spec fn args_text(args: Seq<String>) -> Seq<Seq<char>> {
    args.map_values(|a: String| a@)
}

fn opt_string_clone(o: &Option<String>) -> (r: Option<String>)
    ensures
        opt_text(r) == opt_text(*o),
{
    match o {
        Some(s) => Some(s.clone()),
        None => None,
    }
}

/// Read the run settings from the program arguments (without the program
/// name) and the value of `REDLINE_SMOKE` (`None` when unset).
pub fn parse_cli(args: &[String], smoke_env: Option<String>) -> (r: Result<Cli, CliError>)
    ensures
        r is Ok <==> cli_model(args_text(args@), opt_text(smoke_env)) is Some,
        r matches Ok(cli) ==> cli_model(args_text(args@), opt_text(smoke_env)) == Some(cli.model()),
        r matches Err(CliError::UnknownScript(n)) ==> scanned(args_text(args@)) == Err::<CliModel, Seq<char>>(n@),
        r matches Err(CliError::BadSmokeEnv(v)) ==> scanned(args_text(args@)) matches Ok(m) && m.0 is None
            && smoke_from_env(opt_text(smoke_env)) == Err::<Option<u32>, Seq<char>>(v@),
{
    let ghost text = args_text(args@);
    let mut smoke_frames: Option<u32> = None;
    let mut record_path: Option<String> = None;
    let mut script: Option<Script> = None;
    let mut seconds_text: Option<String> = None;
    let mut i: usize = 0;
    while i < args.len()
        invariant
            i <= args@.len() + 1,
            text == args_text(args@),
            text.len() == args@.len(),
            scanned(text) == scan_args(text, i as int, (smoke_frames, opt_text(record_path), script, opt_text(seconds_text))),
        decreases args@.len() + 1 - i,
    {
        let a = args[i].as_str();
        let has_next = i + 1 < args.len();
        let after = if has_next { i + 2 } else { i + 1 };
        proof {
            assert(text[i as int] == args@[i as int]@);
            if has_next {
                assert(text[i + 1] == args@[i + 1]@);
            }
        }
        if str_eq(a, "--smoke") {
            let v = if has_next {
                match parse_u32(args[i + 1].as_str()) {
                    Some(v) => v,
                    None => 20,
                }
            } else {
                20
            };
            smoke_frames = Some(v);
        } else if str_eq(a, "--record") {
            record_path = if has_next { Some(args[i + 1].clone()) } else { None };
        } else if str_eq(a, "--script") {
            let name: String = if has_next { args[i + 1].clone() } else { "lap".to_owned() };
            match Script::parse(name.as_str()) {
                Some(sc) => {
                    script = Some(sc);
                },
                None => {
                    return Err(CliError::UnknownScript(name));
                },
            }
        } else if str_eq(a, "--seconds") {
            seconds_text = if has_next { Some(args[i + 1].clone()) } else { None };
        } else {
            i = i + 1;
            continue;
        }
        i = after;
    }
    if smoke_frames.is_none() {
        match smoke_env {
            None => {},
            Some(v) => {
                if v.unicode_len() == 0 || str_eq(v.as_str(), "1") {
                    smoke_frames = Some(20);
                } else {
                    match parse_u32(v.as_str()) {
                        Some(n) => {
                            smoke_frames = Some(n);
                        },
                        None => {
                            return Err(CliError::BadSmokeEnv(v));
                        },
                    }
                }
            },
        }
    }
    if record_path.is_none() {
        if let Some(sc) = script {
            let mut p = "/tmp/redline-".to_owned();
            p.append(sc.as_str());
            p.append(".csv");
            record_path = Some(p);
        }
    }
    Ok(Cli { smoke_frames, record_path, script, seconds_text })
}

/// Frame count after the first `--smoke` in `args[i..]`, if there is one.
pub open spec fn first_smoke(args: Seq<Seq<char>>, i: int) -> Option<u32>
    decreases args.len() - i,
{
    if i < 0 || i >= args.len() {
        None
    } else if args[i] == "--smoke"@ {
        Some(smoke_value(if i + 1 < args.len() { Some(args[i + 1]) } else { None }))
    } else {
        first_smoke(args, i + 1)
    }
}

/// Smoke-test frame budget: the value after the first `--smoke` argument
/// (20 when missing or not a count), else from `REDLINE_SMOKE`.
pub fn smoke_frame_budget(args: &[String], smoke_env: Option<String>) -> (r: Result<Option<u32>, CliError>)
    ensures
        first_smoke(args_text(args@), 0) matches Some(v) ==> r == Ok::<Option<u32>, CliError>(Some(v)),
        first_smoke(args_text(args@), 0) is None ==> match (r, smoke_from_env(opt_text(smoke_env))) {
            (Ok(a), Ok(b)) => a == b,
            (Err(CliError::BadSmokeEnv(v)), Err(w)) => v@ == w,
            _ => false,
        },
{
    let ghost text = args_text(args@);
    let mut i: usize = 0;
    while i < args.len()
        invariant
            i <= args@.len(),
            text == args_text(args@),
            text.len() == args@.len(),
            first_smoke(text, 0) == first_smoke(text, i as int),
        decreases args@.len() - i,
    {
        proof {
            assert(text[i as int] == args@[i as int]@);
        }
        if str_eq(args[i].as_str(), "--smoke") {
            let v = if i + 1 < args.len() {
                proof {
                    assert(text[i + 1] == args@[i + 1]@);
                }
                match parse_u32(args[i + 1].as_str()) {
                    Some(v) => v,
                    None => 20,
                }
            } else {
                20
            };
            return Ok(Some(v));
        }
        i = i + 1;
    }
    match smoke_env {
        None => Ok(None),
        Some(v) => {
            if v.unicode_len() == 0 || str_eq(v.as_str(), "1") {
                Ok(Some(20))
            } else {
                match parse_u32(v.as_str()) {
                    Some(n) => Ok(Some(n)),
                    None => Err(CliError::BadSmokeEnv(v)),
                }
            }
        },
    }
}

/// How the game was built; each build fields a different number of opponents.
#[derive(Clone, Copy, Debug, PartialEq, Eq, Structural)]
pub enum BuildProfile {
    /// WebGL in the browser.
    Web,
    /// Native debug build (kept light so the scene boots at an interactive rate).
    Debug,
    /// Native release build.
    Release,
}

/// An AI opponent on the grid.
#[derive(Clone, Copy, Debug)]
pub struct OpponentSpec {
    /// Track sample it starts on.
    pub index: usize,
    /// Lateral lane offset from the ribbon centre, in millimetres (negative is left).
    pub lane: i32,
    /// Cruise speed, in mm/s.
    pub speed: u32,
    pub kit: Kit,
}

/// The opponent grid of each build: every opponent is a full physics joint
/// graph, so lighter builds field fewer.
pub open spec fn grid(profile: BuildProfile) -> Seq<OpponentSpec> {
    let hatch = OpponentSpec { index: 8, lane: -2100i32, speed: 15_500, kit: hatch_kit() };
    match profile {
        BuildProfile::Web => seq![hatch, OpponentSpec { index: 13, lane: 2000, speed: 14_500, kit: taxi_kit() }],
        BuildProfile::Debug => seq![hatch],
        BuildProfile::Release => seq![
            hatch,
            OpponentSpec { index: 13, lane: 2000, speed: 14_500, kit: sedan_kit() },
            OpponentSpec { index: 18, lane: -600i32, speed: 16_500, kit: taxi_kit() },
        ],
    }
}

pub fn opponent_specs(profile: BuildProfile) -> (specs: Vec<OpponentSpec>)
    ensures
        specs@ == grid(profile),
{
    let hatch = OpponentSpec { index: 8, lane: -2100, speed: 15_500, kit: kit_hatch() };
    let specs = match profile {
        BuildProfile::Web => vec![hatch, OpponentSpec { index: 13, lane: 2000, speed: 14_500, kit: kit_taxi() }],
        BuildProfile::Debug => vec![hatch],
        BuildProfile::Release => vec![
            hatch,
            OpponentSpec { index: 13, lane: 2000, speed: 14_500, kit: kit_sedan() },
            OpponentSpec { index: 18, lane: -600, speed: 16_500, kit: kit_taxi() },
        ],
    };
    proof {
        assert(specs@ =~= grid(profile));
    }
    specs
}

/// Seconds a scripted or recorded run lasts when no usable `--seconds` was
/// given: ten, when there is a script or a trace to record; otherwise the
/// run is open-ended.
pub fn default_run_seconds(cli: &Cli) -> (s: Option<u32>)
    ensures
        s == if cli.script is Some || cli.record_path is Some { Some(10u32) } else { None::<u32> },
{
    if cli.script.is_some() || cli.record_path.is_some() {
        Some(10)
    } else {
        None
    }
}

/// Frames left and whether to quit after one more rendered frame.
pub open spec fn smoke_step(left: Option<u32>) -> (Option<u32>, bool) {
    match left {
        Some(n) => (Some(if n == 0 { 0u32 } else { (n - 1) as u32 }), n <= 1),
        None => (None, false),
    }
}

/// Frames left after `k` rendered frames.
pub open spec fn smoke_after(left: Option<u32>, k: nat) -> Option<u32>
    decreases k,
{
    if k == 0 { left } else { smoke_step(smoke_after(left, (k - 1) as nat)).0 }
}

/// Count one rendered frame of a smoke test; `true` when the budget is
/// spent and the game should quit. Without a budget nothing happens.
pub fn tick_smoke(frames_left: &mut Option<u32>) -> (quit: bool)
    ensures
        (*final(frames_left), quit) == smoke_step(*old(frames_left)),
        match *old(frames_left) {
            Some(n) => {
                &&& *final(frames_left) == Some(if n == 0 { 0u32 } else { (n - 1) as u32 })
                &&& quit == (n <= 1)
            },
            None => *final(frames_left) is None && !quit,
        },
{
    match frames_left {
        Some(left) => {
            *left = left.saturating_sub(1);
            *left == 0
        },
        None => false,
    }
}

/// `--smoke N` renders exactly N frames: with a budget of `n >= 1` frames,
/// each of the first `n - 1` frames leaves the game running and the `n`-th
/// asks it to quit.
pub proof fn lemma_smoke_renders_n_frames(n: u32, k: nat)
    requires
        1 <= n,
        k < n,
    ensures
        smoke_after(Some(n), k) == Some((n - k) as u32),
        smoke_step(smoke_after(Some(n), k)).1 == (k + 1 == n),
    decreases k,
{
    if k > 0 {
        lemma_smoke_renders_n_frames(n, (k - 1) as nat);
    }
}

/// An argument that takes the next one as its value.
pub open spec fn is_flag(a: Seq<char>) -> bool {
    a == "--smoke"@ || a == "--record"@ || a == "--script"@ || a == "--seconds"@
}

/// Reading arguments that end on something other than a flag, then more
/// arguments, is reading the first part and then the rest on top of it.
proof fn lemma_scan_split(p: Seq<Seq<char>>, q: Seq<Seq<char>>, i: int, acc: CliModel)
    requires
        0 <= i <= p.len(),
        p.len() == 0 || !is_flag(p.last()),
    ensures
        scan_args(p + q, i, acc) == match scan_args(p, i, acc) {
            Ok(m) => scan_args(p + q, p.len() as int, m),
            Err(e) => Err::<CliModel, Seq<char>>(e),
        },
    decreases p.len() - i,
{
    reveal_strlit("--smoke");
    reveal_strlit("--record");
    reveal_strlit("--script");
    reveal_strlit("--seconds");
    let pq = p + q;
    if i < p.len() {
        let a = p[i];
        assert(pq[i] == a);
        if i + 1 < p.len() {
            assert(pq[i + 1] == p[i + 1]);
        } else {
            assert(i == p.len() - 1);
            assert(a == p.last());
        }
        if a == "--smoke"@ || a == "--record"@ || a == "--seconds"@ {
            lemma_scan_split(p, q, i + 2, if a == "--smoke"@ {
                (Some(smoke_value(Some(p[i + 1]))), acc.1, acc.2, acc.3)
            } else if a == "--record"@ {
                (acc.0, Some(p[i + 1]), acc.2, acc.3)
            } else {
                (acc.0, acc.1, acc.2, Some(p[i + 1]))
            });
        } else if a == "--script"@ {
            match script_named(p[i + 1]) {
                Some(sc) => lemma_scan_split(p, q, i + 2, (acc.0, acc.1, Some(sc), acc.3)),
                None => {},
            }
        } else {
            lemma_scan_split(p, q, i + 1, acc);
        }
    }
}

/// A path given with `--record` is where the trace goes, with or without a
/// script: when the arguments end with `--record v` (read as a flag, i.e.
/// not as the value of a flag before it) and the run is accepted, its record
/// path is `v`.
pub proof fn lemma_record_flag_kept(p: Seq<Seq<char>>, v: Seq<char>, env: Option<Seq<char>>)
    requires
        p.len() == 0 || !is_flag(p.last()),
    ensures
        cli_model(p + seq!["--record"@, v], env) matches Some(m) ==> m.1 == Some(v),
{
    reveal_strlit("--smoke");
    reveal_strlit("--record");
    reveal_strlit("--script");
    reveal_strlit("--seconds");
    assert("--record"@ != "--smoke"@) by {
        assert("--record"@.len() != "--smoke"@.len());
    }
    let args = p + seq!["--record"@, v];
    lemma_scan_split(p, seq!["--record"@, v], 0, (None, None, None, None));
    assert(args[p.len() as int] == "--record"@);
    assert(args[p.len() as int + 1] == v);
    assert(args.len() == p.len() + 2);
    match scan_args(p, 0, (None, None, None, None)) {
        Ok(m) => {
            let after = (m.0, Some(v), m.2, m.3);
            assert(scan_args(args, p.len() as int + 2, after) == Ok::<CliModel, Seq<char>>(after));
            assert(scan_args(args, p.len() as int, m) == scan_args(args, p.len() as int + 2, after));
        },
        Err(_) => {},
    }
}

/// Defaults never replace what the command line gave: a record path read
/// from the arguments is the run's record path, script or not.
pub proof fn lemma_given_record_path_wins(args: Seq<Seq<char>>, env: Option<Seq<char>>)
    ensures
        ({
            match (scanned(args), cli_model(args, env)) {
                (Ok(s), Some(m)) => s.1 is Some ==> m.1 == s.1,
                _ => true,
            }
        }),
{
}

/// The other flags read their value the same way: when the arguments end
/// with `--seconds v`, `--smoke v` or `--script v` (read as a flag) and the
/// run is accepted, the seconds text is `v`, the smoke budget is the frame
/// count `v` (20 when `v` is not one), or the script is the one named `v`.
pub proof fn lemma_last_flag_read(p: Seq<Seq<char>>, v: Seq<char>, env: Option<Seq<char>>)
    requires
        p.len() == 0 || !is_flag(p.last()),
    ensures
        cli_model(p + seq!["--seconds"@, v], env) matches Some(m) ==> m.3 == Some(v),
        cli_model(p + seq!["--smoke"@, v], env) matches Some(m) ==> m.0 == Some(
            match spec_parse_u32(v) {
                Some(n) => n,
                None => 20u32,
            },
        ),
        cli_model(p + seq!["--script"@, v], env) matches Some(m) ==> m.2 == script_named(v),
{
    reveal_strlit("--smoke");
    reveal_strlit("--record");
    reveal_strlit("--script");
    reveal_strlit("--seconds");
    assert("--seconds"@ != "--smoke"@ && "--seconds"@ != "--record"@ && "--seconds"@ != "--script"@) by {
        assert("--seconds"@.len() != "--smoke"@.len());
        assert("--seconds"@.len() != "--record"@.len());
        assert("--seconds"@[3] != "--script"@[3]);
    }
    assert("--script"@ != "--smoke"@ && "--script"@ != "--record"@) by {
        assert("--script"@.len() != "--smoke"@.len());
        assert("--script"@[3] != "--record"@[3]);
    }
    let start = (None, None, None, None);
    let sec = p + seq!["--seconds"@, v];
    lemma_scan_split(p, seq!["--seconds"@, v], 0, start);
    assert(sec[p.len() as int] == "--seconds"@ && sec[p.len() as int + 1] == v && sec.len() == p.len() + 2);
    let smk = p + seq!["--smoke"@, v];
    lemma_scan_split(p, seq!["--smoke"@, v], 0, start);
    assert(smk[p.len() as int] == "--smoke"@ && smk[p.len() as int + 1] == v && smk.len() == p.len() + 2);
    let scr = p + seq!["--script"@, v];
    lemma_scan_split(p, seq!["--script"@, v], 0, start);
    assert(scr[p.len() as int] == "--script"@ && scr[p.len() as int + 1] == v && scr.len() == p.len() + 2);
    match scan_args(p, 0, start) {
        Ok(m) => {
            assert(scan_args(sec, p.len() as int + 2, (m.0, m.1, m.2, Some(v))) == Ok::<CliModel, Seq<char>>((m.0, m.1, m.2, Some(v))));
            assert(scan_args(smk, p.len() as int + 2, (Some(smoke_value(Some(v))), m.1, m.2, m.3))
                == Ok::<CliModel, Seq<char>>((Some(smoke_value(Some(v))), m.1, m.2, m.3)));
            match script_named(v) {
                Some(sc) => {
                    assert(scan_args(scr, p.len() as int + 2, (m.0, m.1, Some(sc), m.3))
                        == Ok::<CliModel, Seq<char>>((m.0, m.1, Some(sc), m.3)));
                },
                None => {},
            }
        },
        Err(_) => {},
    }
}

} // verus!
