use redline::helpers::hash_u32;
use redline::planet::{icosahedron_faces, icosphere_topology};
use redline::planet::{prop_model_seed, scatter_pick, spire_pick, DecorationKind, PropFamily};

#[test]
fn icosphere_counts() {
    let (parents, faces) = icosphere_topology(0);
    assert_eq!(12 + parents.len(), 12);
    assert_eq!(faces.len(), 20);
    let (parents, faces) = icosphere_topology(2);
    assert!(12 + parents.len() > 12);
    assert_eq!(faces.len(), 20 * 16);
}

#[test]
fn icosphere_shares_edge_midpoints() {
    // Euler: V = 10 * 4^s + 2 when every edge is split once.
    for s in 0..4u32 {
        let (parents, faces) = icosphere_topology(s);
        assert_eq!(12 + parents.len(), 10 * 4usize.pow(s) + 2);
        let n = (12 + parents.len()) as u32;
        assert!(faces.iter().all(|f| f.iter().all(|&v| v < n)));
    }
    assert_eq!(icosahedron_faces().len(), 20);
}

#[test]
fn crystal_spike_fans_around_the_rim() {
    let idx = redline::planet::spike_indices(6);
    assert_eq!(idx.len(), 36);
    assert_eq!(&idx[0..6], &[0, 2, 3, 1, 3, 2]);
    assert_eq!(&idx[30..36], &[0, 7, 2, 1, 2, 7]);
}

#[test]
fn scatter_pick_matches_hash_roll() {
    let seed = 1337u32;
    let mut crystals = 0;
    for i in 0..400u32 {
        let p = scatter_pick(seed, i, 3, 3);
        let h = hash_u32(seed.wrapping_add(i.wrapping_mul(747796405)));
        assert_eq!(p.hash, h);
        let crystal = (h & 0xFF) < 38;
        assert_eq!(p.kind == DecorationKind::Crystal, crystal);
        assert_eq!(p.model, (i % 3) as usize);
        assert_eq!(p.glow, if crystal { Some(i % 3) } else { None });
        if crystal {
            crystals += 1;
        }
    }
    // About one in seven scattered pieces is a crystal.
    assert!(crystals > 25 && crystals < 95, "{crystals}");
    let (h, m) = spire_pick(seed, 5, 1, 3);
    assert_eq!(h, hash_u32(seed ^ 5u32.wrapping_mul(0x9E37_79B9) ^ 0x85EB_CA6B));
    assert_eq!(m, 0);
}

#[test]
fn prop_seeds_step_per_family() {
    assert_eq!(prop_model_seed(PropFamily::Stone, 10, 2), 44);
    assert_eq!(prop_model_seed(PropFamily::Spire, 10, 2), 10 + 0x5A11 + 86);
    assert_eq!(prop_model_seed(PropFamily::Crystal, u32::MAX, 1), 28);
}

#[test]
fn each_face_splits_into_four_at_named_midpoints() {
    let (p1, f1) = icosphere_topology(1);
    let base = icosahedron_faces();
    let edge = |a: u32, b: u32| if a < b { (a, b) } else { (b, a) };
    for (i, f) in base.iter().enumerate() {
        let inner = f1[4 * i + 3];
        let (ab, bc, ca) = (inner[0], inner[1], inner[2]);
        assert_eq!(f1[4 * i], [f[0], ab, ca]);
        assert_eq!(f1[4 * i + 1], [f[1], bc, ab]);
        assert_eq!(f1[4 * i + 2], [f[2], ca, bc]);
        assert_eq!(p1[(ab - 12) as usize], edge(f[0], f[1]));
        assert_eq!(p1[(bc - 12) as usize], edge(f[1], f[2]));
        assert_eq!(p1[(ca - 12) as usize], edge(f[2], f[0]));
    }
    // Level 2 keeps the level-1 midpoints and adds its own after them.
    let (p2, _) = icosphere_topology(2);
    assert_eq!(&p2[..p1.len()], &p1[..]);
}
