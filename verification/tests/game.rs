use redline::game::{default_run_seconds, tick_smoke, bump_pairs, opponent_specs, parse_cli, smoke_frame_budget, BuildProfile, CliError};
use redline::helpers::parse_u32;
use redline::trace::Script;
use redline::vehicle::{Recovery, RecoveryAction};

fn args(list: &[&str]) -> Vec<String> {
    list.iter().map(|s| s.to_string()).collect()
}

#[test]
fn cli_reads_flags_and_defaults() {
    let cli = parse_cli(&args(&["--script", "offroad", "--smoke", "7"]), None).unwrap();
    assert_eq!(cli.script, Some(Script::Offroad));
    assert_eq!(cli.smoke_frames, Some(7));
    assert_eq!(cli.record_path.as_deref(), Some("/tmp/redline-offroad.csv"));
    assert_eq!(cli.seconds_text, None);

    let cli = parse_cli(&args(&["--smoke", "many", "--record", "out.csv", "--seconds", "3.5"]), None).unwrap();
    assert_eq!(cli.smoke_frames, Some(20));
    assert_eq!(cli.record_path.as_deref(), Some("out.csv"));
    assert_eq!(cli.seconds_text.as_deref(), Some("3.5"));
    assert_eq!(cli.script, None);

    let cli = parse_cli(&args(&["--script"]), Some(String::new())).unwrap();
    assert_eq!(cli.script, Some(Script::Lap));
    assert_eq!(cli.smoke_frames, Some(20));

    let cli = parse_cli(&args(&["--verbose"]), Some("12".to_string())).unwrap();
    assert_eq!(cli.smoke_frames, Some(12));
    assert_eq!(cli.record_path, None);
}

#[test]
fn cli_refuses_unknown_script_and_bad_smoke() {
    assert_eq!(
        parse_cli(&args(&["--script", "drift"]), None).unwrap_err(),
        CliError::UnknownScript("drift".to_string())
    );
    assert_eq!(
        parse_cli(&args(&[]), Some("lots".to_string())).unwrap_err(),
        CliError::BadSmokeEnv("lots".to_string())
    );
    // An explicit --smoke makes the environment irrelevant.
    assert!(parse_cli(&args(&["--smoke", "3"]), Some("lots".to_string())).is_ok());
}

#[test]
fn smoke_budget_takes_the_first_flag() {
    assert_eq!(smoke_frame_budget(&args(&["--smoke", "5", "--smoke", "9"]), None), Ok(Some(5)));
    assert_eq!(smoke_frame_budget(&args(&["--smoke"]), None), Ok(Some(20)));
    assert_eq!(smoke_frame_budget(&args(&[]), None), Ok(None));
    assert_eq!(smoke_frame_budget(&args(&[]), Some("1".to_string())), Ok(Some(20)));
    assert_eq!(smoke_frame_budget(&args(&[]), Some("x".to_string())), Err(CliError::BadSmokeEnv("x".to_string())));
}

#[test]
fn parse_u32_matches_std() {
    for text in ["0", "42", "+7", "4294967295", "4294967296", "", "+", "-1", " 1", "1 ", "12a", "007"] {
        assert_eq!(parse_u32(text), text.parse::<u32>().ok(), "{text:?}");
    }
}

#[test]
fn bumps_are_reported_once_per_pair() {
    let contacts = [
        (Some(1), Some(0)),
        (Some(0), Some(1)),
        (Some(2), None),
        (Some(2), Some(2)),
        (Some(2), Some(1)),
        (None, None),
    ];
    assert_eq!(bump_pairs(&contacts), vec![(0, 1), (1, 2)]);
    assert!(bump_pairs(&[]).is_empty());
}

#[test]
fn opponent_grids_by_build() {
    assert_eq!(opponent_specs(BuildProfile::Debug).len(), 1);
    assert_eq!(opponent_specs(BuildProfile::Web).len(), 2);
    let release = opponent_specs(BuildProfile::Release);
    assert_eq!(release.len(), 3);
    assert_eq!(release[0].index, 8);
    assert_eq!(release[0].lane, -2100);
    assert_eq!(release[2].speed, 16_500);
    assert_eq!(release[1].kit.body_model, "models/sedan-sports-body.glb");
}

#[test]
fn recovery_hops_then_recovers_a_wedged_craft() {
    let mut r = Recovery::new();
    // Upright, slow and off the road: wedged.
    let mut hops = 0;
    let mut steps = 0;
    loop {
        steps += 1;
        let a = r.step(500, 1000, 1000, false, 100);
        if a.hop {
            hops += 1;
        }
        if a.recover {
            break;
        }
        assert!(steps < 20);
    }
    assert_eq!(hops, 1);
    assert_eq!(steps, 11);
    assert_eq!(r, Recovery::new());
}

#[test]
fn recovery_counts_impacts_triple_and_leaves_free_crafts_alone() {
    let mut r = Recovery::new();
    assert_eq!(r.step(20_000, 1000, 0, true, 16), RecoveryAction { hop: false, recover: false });
    // Sudden stop from 20 m/s: 3 × 100 ms counts as stuck.
    assert_eq!(r.step(1000, 1000, 0, false, 100), RecoveryAction { hop: true, recover: false });
    assert_eq!(r.stuck_time, 300);
    // Moving freely again clears the timers.
    assert_eq!(r.step(5000, 1000, 0, true, 100), RecoveryAction { hop: false, recover: false });
    assert_eq!(r.stuck_time, 0);
    assert!(!r.hopped);
    // Upside down for over 0.7 s: recover.
    let mut recovered = false;
    for _ in 0..8 {
        recovered = r.step(5000, -900, 0, true, 100).recover;
    }
    assert!(recovered);
}

#[test]
fn smoke_budget_counts_down_to_quit() {
    let mut left = Some(2);
    assert!(!tick_smoke(&mut left));
    assert_eq!(left, Some(1));
    assert!(tick_smoke(&mut left));
    assert_eq!(left, Some(0));
    assert!(tick_smoke(&mut left));
    let mut none = None;
    assert!(!tick_smoke(&mut none));
}

#[test]
fn smoke_budget_renders_exactly_n_frames() {
    for n in 1..6u32 {
        let mut left = Some(n);
        let mut frames = 0;
        loop {
            frames += 1;
            if tick_smoke(&mut left) {
                break;
            }
        }
        assert_eq!(frames, n);
    }
}

#[test]
fn scripted_runs_default_to_ten_seconds() {
    let cli = parse_cli(&args(&["--script", "lap"]), None).unwrap();
    assert_eq!(default_run_seconds(&cli), Some(10));
    let cli = parse_cli(&args(&["--record", "/tmp/x.csv"]), None).unwrap();
    assert_eq!(default_run_seconds(&cli), Some(10));
    let cli = parse_cli(&args(&[]), None).unwrap();
    assert_eq!(default_run_seconds(&cli), None);
}
