use redline::helpers::{format_time, hash_u32, relative_model, relative_model_from, starfield};

#[test]
fn starfield_is_sparse_and_point_like() {
    let sky = starfield(512, 256);
    assert_eq!(sky.len(), 512 * 256);
    let luminous = sky
        .iter()
        .filter(|pixel| pixel[0].max(pixel[1]).max(pixel[2]) > 50)
        .count();
    assert!(luminous > 1_000);
    assert!(luminous < sky.len() / 30, "stars should not flatten the sky");
}

#[test]
fn starfield_draws_the_sun_disc() {
    let sky = starfield(64, 32);
    // Sun centre: x = 64 * 3 / 4 = 48, y = 32 / 3 = 10.
    assert_eq!(sky[10 * 64 + 48], [255, 210, 140, 255]);
    // Squared distance 25 from the centre is on the rim.
    assert_eq!(sky[10 * 64 + 53], [90, 55, 30, 255]);
}

#[test]
fn hash_matches_known_values() {
    assert_ne!(hash_u32(0), hash_u32(1));
    // Reference value of the avalanche hash.
    let mut x = 5u32.wrapping_add(0x9E37_79B9);
    x = (x ^ (x >> 16)).wrapping_mul(0x7FEB_352D);
    x = (x ^ (x >> 15)).wrapping_mul(0x846C_A68B);
    assert_eq!(hash_u32(5), x ^ (x >> 16));
}

#[test]
fn relative_model_strips_the_asset_root() {
    assert_eq!(relative_model("/game/assets", "/game/assets/models/pylon.glb"), "models/pylon.glb");
    assert_eq!(relative_model("/game/assets", "/elsewhere/rock.glb"), "/elsewhere/rock.glb");
    // Whole components only.
    assert_eq!(relative_model("/game/ass", "/game/assets/x.glb"), "/game/assets/x.glb");
    assert_eq!(relative_model_from("a/b.glb", Some("b.glb".to_string())), "b.glb");
    assert_eq!(relative_model_from("a/b.glb", None), "a/b.glb");
}

#[test]
fn format_time_shows_minutes_seconds_hundredths() {
    assert_eq!(format_time(0), "0:00.00");
    assert_eq!(format_time(83_456), "1:23.46");
    assert_eq!(format_time(9_004), "0:09.00");
    assert_eq!(format_time(754_321), "12:34.32");
    assert_eq!(format_time(59_995), "0:60.00");
}

#[test]
fn hash_has_no_collisions_on_a_sample() {
    let mut seen = std::collections::HashSet::new();
    for x in (0..200_000u32).chain([u32::MAX, u32::MAX - 1, 0x8000_0000]) {
        assert!(seen.insert(hash_u32(x)), "collision at {x}");
    }
}
