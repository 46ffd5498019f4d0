//! Planet scenery classification and the icosphere mesh topology.
use vstd::prelude::*;
use std::collections::HashMap;
use crate::helpers::{hash_u32, spec_hash_u32};
use vstd::wrapping::u32_specs::{wrapping_add, wrapping_mul};
use vstd::compute::RangeAll;

verus! {

/// What a piece of scenery is; crystals glow and bounce a little more.
#[derive(Clone, Copy, Debug, PartialEq, Eq, Structural)]
pub enum DecorationKind {
    Stone,
    Crystal,
}

broadcast use vstd::std_specs::hash::group_hash_axioms;

/// 4 to the power `n`.
pub open spec fn pow4(n: nat) -> nat
    decreases n,
{
    if n == 0 { 1 } else { 4 * pow4((n - 1) as nat) }
}

/// Every face names three vertices below `vertex_count`.
pub open spec fn faces_within(faces: Seq<[u32; 3]>, vertex_count: nat) -> bool {
    forall|i: int|
        0 <= i < faces.len() ==> (#[trigger] faces[i])[0] < vertex_count && faces[i][1] < vertex_count
            && faces[i][2] < vertex_count
}

/// Vertex `12 + k` is the midpoint of the earlier vertices `parents[k]`,
/// listed smaller index first.
pub open spec fn parents_ordered(parents: Seq<(u32, u32)>) -> bool {
    forall|k: int|
        0 <= k < parents.len() ==> (#[trigger] parents[k]).0 <= parents[k].1 < 12 + k
}

/// The twenty faces of the icosahedron over its twelve vertices.
pub open spec fn icosahedron() -> Seq<[u32; 3]> {
    seq![
        [0u32, 11u32, 5u32],
        [0u32, 5u32, 1u32],
        [0u32, 1u32, 7u32],
        [0u32, 7u32, 10u32],
        [0u32, 10u32, 11u32],
        [1u32, 5u32, 9u32],
        [5u32, 11u32, 4u32],
        [11u32, 10u32, 2u32],
        [10u32, 7u32, 6u32],
        [7u32, 1u32, 8u32],
        [3u32, 9u32, 4u32],
        [3u32, 4u32, 2u32],
        [3u32, 2u32, 6u32],
        [3u32, 6u32, 8u32],
        [3u32, 8u32, 9u32],
        [4u32, 9u32, 5u32],
        [2u32, 4u32, 11u32],
        [6u32, 2u32, 10u32],
        [8u32, 6u32, 7u32],
        [9u32, 8u32, 1u32],
    ]
}

pub fn icosahedron_faces() -> (faces: Vec<[u32; 3]>)
    ensures
        faces@ == icosahedron(),
        faces@.len() == 20,
        faces_within(faces@, 12),
{
    let faces: Vec<[u32; 3]> = vec![
        [0, 11, 5],
        [0, 5, 1],
        [0, 1, 7],
        [0, 7, 10],
        [0, 10, 11],
        [1, 5, 9],
        [5, 11, 4],
        [11, 10, 2],
        [10, 7, 6],
        [7, 1, 8],
        [3, 9, 4],
        [3, 4, 2],
        [3, 2, 6],
        [3, 6, 8],
        [3, 8, 9],
        [4, 9, 5],
        [2, 4, 11],
        [6, 2, 10],
        [8, 6, 7],
        [9, 8, 1],
    ];
    assert(faces@ =~= icosahedron());
    faces
}

/// Cache key of the edge between vertices `lo <= hi`.
pub open spec fn edge_key(lo: u32, hi: u32) -> u64 {
    (lo * 0x1_0000_0000 + hi) as u64
}

/// The edge between `a` and `b`, smaller vertex first.
pub open spec fn edge(a: u32, b: u32) -> (u32, u32) {
    if a < b { (a, b) } else { (b, a) }
}

/// At least two corners of `f` are vertices numbered `p` or above.
pub open spec fn two_fresh(f: [u32; 3], p: int) -> bool {
    ||| f[0] >= p && f[1] >= p
    ||| f[1] >= p && f[2] >= p
    ||| f[0] >= p && f[2] >= p
}

/// No two midpoint vertices share parents: every edge is split at most once.
pub open spec fn parents_distinct(parents: Seq<(u32, u32)>) -> bool {
    forall|j: int, k: int| 0 <= j < k < parents.len() ==> parents[j] != parents[k]
}

/// Vertex `m` is a midpoint vertex whose parents are the edge `x`–`y`.
pub open spec fn names_midpoint(parents: Seq<(u32, u32)>, m: u32, x: u32, y: u32) -> bool {
    12 <= m < 12 + parents.len() && parents[m - 12] == edge(x, y)
}

/// Face `f` (number `i` of its level) became faces `4i .. 4i + 4` of the
/// next level `next`: with `ab`, `bc`, `ca` the midpoints of its edges, the
/// corners `[f0, ab, ca]`, `[f1, bc, ab]`, `[f2, ca, bc]` and the inner face
/// `[ab, bc, ca]`.
pub open spec fn splits(f: [u32; 3], next: Seq<[u32; 3]>, i: int, parents: Seq<(u32, u32)>) -> bool {
    let inner = next[4 * i + 3];
    let (ab, bc, ca) = (inner[0], inner[1], inner[2]);
    &&& next[4 * i][0] == f[0] && next[4 * i][1] == ab && next[4 * i][2] == ca
    &&& next[4 * i + 1][0] == f[1] && next[4 * i + 1][1] == bc && next[4 * i + 1][2] == ab
    &&& next[4 * i + 2][0] == f[2] && next[4 * i + 2][1] == ca && next[4 * i + 2][2] == bc
    &&& names_midpoint(parents, ab, f[0], f[1])
    &&& names_midpoint(parents, bc, f[1], f[2])
    &&& names_midpoint(parents, ca, f[2], f[0])
}

/// `next` is `prev` with every face split in four at its edge midpoints.
pub open spec fn subdivides(prev: Seq<[u32; 3]>, next: Seq<[u32; 3]>, parents: Seq<(u32, u32)>) -> bool {
    &&& next.len() == 4 * prev.len()
    &&& forall|i: int| 0 <= i < prev.len() ==> #[trigger] splits(prev[i], next, i, parents)
}

/// Vertex `v` is a corner of the inner face that face `i` split into.
pub open spec fn inner_has(next: Seq<[u32; 3]>, i: int, v: u32) -> bool {
    next[4 * i + 3][0] == v || next[4 * i + 3][1] == v || next[4 * i + 3][2] == v
}

/// Vertex `v` is a corner of the inner face of one of the first `n` faces' splits.
pub open spec fn made_in(next: Seq<[u32; 3]>, n: int, v: u32) -> bool {
    exists|i: int| 0 <= i < n && #[trigger] inner_has(next, i, v)
}

/// Vertex `v` is a corner of the inner face that face `i` of level `k` split into.
pub open spec fn level_inner_has(levels: Seq<Seq<[u32; 3]>>, k: int, i: int, v: u32) -> bool {
    inner_has(levels[k + 1], i, v)
}

/// The faces of every level, from the icosahedron (level 0) to `faces`
/// (level `s`), each level the previous one subdivided, and every midpoint
/// vertex a corner of the faces of the level that made it.
pub open spec fn icosphere_levels(
    levels: Seq<Seq<[u32; 3]>>,
    parents: Seq<(u32, u32)>,
    faces: Seq<[u32; 3]>,
    s: nat,
) -> bool {
    &&& levels.len() == s + 1
    &&& levels[0] == icosahedron()
    &&& levels[s as int] == faces
    &&& forall|k: int| 0 <= k < s ==> #[trigger] subdivides(levels[k], levels[k + 1], parents)
    &&& forall|p: int| 0 <= p < parents.len() ==> #[trigger] made_by_a_level(levels, s, (12 + p) as u32)
}

/// Vertex `v` is a corner of an inner face of one of the first `s` splits.
pub open spec fn made_by_a_level(levels: Seq<Seq<[u32; 3]>>, s: nat, v: u32) -> bool {
    exists|k: int, i: int| 0 <= k < s && 0 <= i < levels[k].len() && #[trigger] level_inner_has(levels, k, i, v)
}

proof fn lemma_splits_stable(f: [u32; 3], next: Seq<[u32; 3]>, i: int, p1: Seq<(u32, u32)>, p2: Seq<(u32, u32)>)
    requires
        splits(f, next, i, p1),
        p1.len() <= p2.len(),
        forall|k: int| 0 <= k < p1.len() ==> p2[k] == p1[k],
    ensures
        splits(f, next, i, p2),
{
    let inner = next[4 * i + 3];
    assert(p2[inner[0] - 12] == p1[inner[0] - 12]);
    assert(p2[inner[1] - 12] == p1[inner[1] - 12]);
    assert(p2[inner[2] - 12] == p1[inner[2] - 12]);
}

proof fn lemma_subdivides_stable(prev: Seq<[u32; 3]>, next: Seq<[u32; 3]>, p1: Seq<(u32, u32)>, p2: Seq<(u32, u32)>)
    requires
        subdivides(prev, next, p1),
        p1.len() <= p2.len(),
        forall|k: int| 0 <= k < p1.len() ==> p2[k] == p1[k],
    ensures
        subdivides(prev, next, p2),
{
    assert forall|i: int| 0 <= i < prev.len() implies #[trigger] splits(prev[i], next, i, p2) by {
        lemma_splits_stable(prev[i], next, i, p1, p2);
    }
}

/// Vertex on the edge `a`–`b`: the cached one, or a new one appended to
/// `parents` and the cache.
fn midpoint(parents: &mut Vec<(u32, u32)>, cache: &mut HashMap<u64, u32>, a: u32, b: u32) -> (v: u32)
    requires
        12 + old(parents)@.len() < u32::MAX,
    ensures
        ({
            let e = edge(a, b);
            let key = edge_key(e.0, e.1);
            if old(cache)@.contains_key(key) {
                &&& v == old(cache)@[key]
                &&& final(parents)@ == old(parents)@
                &&& final(cache)@ == old(cache)@
            } else {
                &&& v == 12 + old(parents)@.len()
                &&& final(parents)@ == old(parents)@.push(e)
                &&& final(cache)@ == old(cache)@.insert(key, v)
            }
        }),
{
    let (lo, hi) = if a < b { (a, b) } else { (b, a) };
    let key: u64 = lo as u64 * 0x1_0000_0000u64 + hi as u64;
    assert(key == edge_key(lo, hi));
    match cache.get(&key) {
        Some(index) => {
            return *index;
        },
        None => {},
    }
    let index: u32 = 12 + parents.len() as u32;
    parents.push((lo, hi));
    cache.insert(key, index);
    index
}

/// One subdivision level: every face of `faces` split in four at its edge
/// midpoints, each edge split once; on a closed surface that makes one new
/// vertex per edge, `3 / 2` per face (the cache is per level; edges from
/// earlier levels cannot recur, since two corners of every face are vertices
/// made at or after `fresh`, which no earlier midpoint has as a parent).
#[verifier::rlimit(60)]
fn subdivide_level(faces: &Vec<[u32; 3]>, parents: &mut Vec<(u32, u32)>, Ghost(fresh): Ghost<int>) -> (next: Vec<[u32; 3]>)
    requires
        2 * (12 + old(parents)@.len()) + 3 * faces@.len() < 2 * u32::MAX,
        closed_surface(faces@),
        faces_within(faces@, 12 + old(parents)@.len()),
        parents_ordered(old(parents)@),
        parents_distinct(old(parents)@),
        0 <= fresh <= 12 + old(parents)@.len(),
        forall|j: int| 0 <= j < faces@.len() ==> two_fresh(#[trigger] faces@[j], fresh),
        forall|k: int| 0 <= k < old(parents)@.len() ==> (#[trigger] old(parents)@[k]).1 < fresh,
    ensures
        next@.len() == 4 * faces@.len(),
        2 * (final(parents)@.len() - old(parents)@.len()) == 3 * faces@.len(),
        forall|i: int, c: int| 0 <= i < faces@.len() && 0 <= c < 3 ==> #[trigger] mid(next@, i, c) >= 12 + old(parents)@.len(),
        old(parents)@.len() <= final(parents)@.len() <= old(parents)@.len() + 3 * faces@.len(),
        forall|k: int| 0 <= k < old(parents)@.len() ==> final(parents)@[k] == old(parents)@[k],
        faces_within(next@, 12 + final(parents)@.len()),
        forall|j: int| 0 <= j < next@.len() ==> two_fresh(#[trigger] next@[j], (12 + old(parents)@.len()) as int),
        forall|k: int| 0 <= k < final(parents)@.len() ==> (#[trigger] final(parents)@[k]).1 < 12 + old(parents)@.len(),
        parents_ordered(final(parents)@),
        parents_distinct(final(parents)@),
        subdivides(faces@, next@, final(parents)@),
        forall|p: int| old(parents)@.len() <= p < final(parents)@.len() ==>
            #[trigger] made_in(next@, faces@.len() as int, (12 + p) as u32),
{
    let mut cache: HashMap<u64, u32> = HashMap::new();
    let mut next: Vec<[u32; 3]> = Vec::new();
    let ghost start = parents@.len();
    let ghost p_start = parents@;
    let ghost mut first: Seq<int> = Seq::empty();
    let ghost mut back: Seq<int> = Seq::empty();
    let ghost mut waiting: Set<int> = Set::empty();
    let ghost mut hits: int = 0;
    let mut i: usize = 0;
    while i < faces.len()
        invariant
            i <= faces@.len(),
            2 * (12 + start) + 3 * faces@.len() < 2 * u32::MAX,
            closed_surface(faces@),
            count_inv(faces@, start as int, parents@, 3 * i, first, back, waiting, hits),
            forall|j: int, c: int| 0 <= j < i && 0 <= c < 3 ==> #[trigger] mid(next@, j, c) >= 12 + start,
            p_start.len() == start,
            forall|k: int| 0 <= k < start ==> parents@[k] == p_start[k],
            forall|j: int| 0 <= j < i ==> #[trigger] splits(faces@[j], next@, j, parents@),
            forall|p: int| start <= p < parents@.len() ==> #[trigger] made_in(next@, i as int, (12 + p) as u32),
            faces_within(faces@, 12 + start),
            forall|j: int| 0 <= j < faces@.len() ==> two_fresh(#[trigger] faces@[j], fresh),
            start <= parents@.len() <= start + 3 * i,
            next@.len() == 4 * i,
            faces_within(next@, 12 + parents@.len()),
            forall|j: int| 0 <= j < next@.len() ==> two_fresh(#[trigger] next@[j], (12 + start) as int),
            parents_ordered(parents@),
            parents_distinct(parents@),
            0 <= fresh <= 12 + start,
            forall|k: int| 0 <= k < start ==> (#[trigger] parents@[k]).1 < fresh,
            forall|k: int| start <= k < parents@.len() ==> fresh <= (#[trigger] parents@[k]).1 < 12 + start,
            forall|k: int| start <= k < parents@.len() ==> cache@.contains_key(
                edge_key((#[trigger] parents@[k]).0, parents@[k].1),
            ) && cache@[edge_key(parents@[k].0, parents@[k].1)] == 12 + k,
            forall|key: u64| #[trigger] cache@.contains_key(key) ==> 12 + start <= cache@[key] < 12 + parents@.len()
                && edge_key(parents@[cache@[key] - 12].0, parents@[cache@[key] - 12].1) == key,
        decreases faces@.len() - i,
    {
        let face = faces[i];
        let ghost p_face = parents@;
        let ghost n_face = next@;
        proof {
            assert(face[0] < 12 + start && face[1] < 12 + start && face[2] < 12 + start);
            assert(two_fresh(face, fresh));
        }
        proof {
            lemma_count_bound(faces@, start as int, parents@, 3 * i, first, back, waiting, hits);
        }
        let a = midpoint_step(parents, &mut cache, face[0], face[1], Ghost(start), Ghost(fresh));
        let ghost p_a = parents@;
        proof {
            lemma_slot_index(i as int, 0);
            let out = lemma_count_step(faces@, start as int, p_face, p_a, 3 * i, first, back, waiting, hits, a);
            first = out.0;
            back = out.1;
            waiting = out.2;
            hits = out.3;
            lemma_count_bound(faces@, start as int, parents@, 3 * i + 1, first, back, waiting, hits);
        }
        let b = midpoint_step(parents, &mut cache, face[1], face[2], Ghost(start), Ghost(fresh));
        let ghost p_b = parents@;
        proof {
            lemma_slot_index(i as int, 1);
            let out = lemma_count_step(faces@, start as int, p_a, p_b, 3 * i + 1, first, back, waiting, hits, b);
            first = out.0;
            back = out.1;
            waiting = out.2;
            hits = out.3;
            lemma_count_bound(faces@, start as int, parents@, 3 * i + 2, first, back, waiting, hits);
        }
        let c = midpoint_step(parents, &mut cache, face[2], face[0], Ghost(start), Ghost(fresh));
        proof {
            lemma_slot_index(i as int, 2);
            let out = lemma_count_step(faces@, start as int, p_b, parents@, 3 * i + 2, first, back, waiting, hits, c);
            first = out.0;
            back = out.1;
            waiting = out.2;
            hits = out.3;
        }
        next.push([face[0], a, c]);
        next.push([face[1], b, a]);
        next.push([face[2], c, b]);
        next.push([a, b, c]);
        proof {
            assert forall|j: int|
                0 <= j < next@.len() implies (#[trigger] next@[j])[0] < 12 + parents@.len()
                    && next@[j][1] < 12 + parents@.len() && next@[j][2] < 12 + parents@.len() by {
                if j < 4 * i {
                }
            }
            assert forall|j: int| 0 <= j < next@.len() implies two_fresh(#[trigger] next@[j], (12 + start) as int) by {
                if j < 4 * i {
                }
            }
            assert forall|j: int| 0 <= j < i + 1 implies #[trigger] splits(faces@[j], next@, j, parents@) by {
                if j < i {
                    assert(splits(faces@[j], n_face, j, p_face));
                    assert(next@[4 * j] == n_face[4 * j]);
                    assert(next@[4 * j + 1] == n_face[4 * j + 1]);
                    assert(next@[4 * j + 2] == n_face[4 * j + 2]);
                    assert(next@[4 * j + 3] == n_face[4 * j + 3]);
                    lemma_splits_stable(faces@[j], next@, j, p_face, parents@);
                } else {
                    assert(next@[4 * j + 3] == [a, b, c]);
                    assert(names_midpoint(parents@, a, face[0], face[1]));
                    assert(names_midpoint(parents@, b, face[1], face[2]));
                }
            }
            assert forall|j: int, q: int| 0 <= j < i + 1 && 0 <= q < 3 implies #[trigger] mid(next@, j, q) >= 12 + start by {
                if j < i {
                    assert(next@[4 * j + 3] == n_face[4 * j + 3]);
                    assert(mid(n_face, j, q) >= 12 + start);
                } else {
                    assert(next@[4 * i + 3] == [a, b, c]);
                }
            }
            assert forall|p: int| start <= p < parents@.len() implies #[trigger] made_in(next@, i + 1, (12 + p) as u32) by {
                if p < p_face.len() {
                    assert(made_in(n_face, i as int, (12 + p) as u32));
                    let w = choose|j: int| 0 <= j < i && #[trigger] inner_has(n_face, j, (12 + p) as u32);
                    assert(next@[4 * w + 3] == n_face[4 * w + 3]);
                    assert(inner_has(next@, w, (12 + p) as u32));
                } else {
                    assert(next@[4 * i + 3] == [a, b, c]);
                    if p < p_a.len() {
                        assert(a == 12 + p);
                    } else if p < p_b.len() {
                        assert(b == 12 + p);
                    } else {
                        assert(c == 12 + p);
                    }
                    assert(inner_has(next@, i as int, (12 + p) as u32));
                }
            }
        }
        i = i + 1;
    }
    proof {
        lemma_count_bound(faces@, start as int, parents@, 3 * i, first, back, waiting, hits);
    }
    next
}

/// Index topology of an icosphere: the icosahedron with every face split
/// into four, `subdivisions` times. Vertex `12 + k` is the midpoint of the
/// vertices `parents[k]`; the first twelve vertices are the icosahedron's.
/// Every edge is split once, so no two midpoints share parents, and every
/// midpoint is a corner of some level's faces. Each level stays a closed
/// surface, whose `3F / 2` edges each gain one midpoint, so `s` levels end
/// with `10 * 4^s + 2` vertices.
pub fn icosphere_topology(subdivisions: u32) -> (out: (Vec<(u32, u32)>, Vec<[u32; 3]>))
    requires
        10 * pow4(subdivisions as nat) + 2 < u32::MAX,
    ensures
        out.1@.len() == 20 * pow4(subdivisions as nat),
        12 + out.0@.len() == 10 * pow4(subdivisions as nat) + 2,
        faces_within(out.1@, 12 + out.0@.len()),
        parents_ordered(out.0@),
        parents_distinct(out.0@),
        closed_surface(out.1@),
        exists|levels: Seq<Seq<[u32; 3]>>| icosphere_levels(levels, out.0@, out.1@, subdivisions as nat),
{
    let mut parents: Vec<(u32, u32)> = Vec::new();
    let mut faces = icosahedron_faces();
    let mut level: u32 = 0;
    // Vertices numbered `fresh` or above were made by the previous level.
    let ghost mut fresh: int = 0;
    let ghost mut levels: Seq<Seq<[u32; 3]>> = seq![faces@];
    proof {
        lemma_icosahedron_closed();
    }
    while level < subdivisions
        invariant
            level <= subdivisions,
            icosphere_levels(levels, parents@, faces@, level as nat),
            10 * pow4(subdivisions as nat) + 2 < u32::MAX,
            faces@.len() == 20 * pow4(level as nat),
            12 + parents@.len() == 10 * pow4(level as nat) + 2,
            closed_surface(faces@),
            faces_within(faces@, 12 + parents@.len()),
            parents_ordered(parents@),
            parents_distinct(parents@),
            0 <= fresh <= 12 + parents@.len(),
            forall|i: int| 0 <= i < faces@.len() ==> two_fresh(#[trigger] faces@[i], fresh),
            forall|k: int| 0 <= k < parents@.len() ==> (#[trigger] parents@[k]).1 < fresh,
        decreases subdivisions - level,
    {
        proof {
            lemma_pow4_monotone((level + 1) as nat, subdivisions as nat);
        }
        let ghost p_start = parents@;
        let ghost f_start = faces@;
        let next = subdivide_level(&faces, &mut parents, Ghost(fresh));
        proof {
            lemma_split_closed(f_start, next@, parents@, (12 + p_start.len()) as int);
            assert forall|k: int| 0 <= k < level implies #[trigger] subdivides(levels[k], levels[k + 1], parents@) by {
                lemma_subdivides_stable(levels[k], levels[k + 1], p_start, parents@);
            }
            let old_levels = levels;
            levels = levels.push(next@);
            assert forall|p: int| 0 <= p < parents@.len() implies #[trigger] made_by_a_level(levels, (level + 1) as nat, (12 + p) as u32) by {
                if p < p_start.len() {
                    assert(made_by_a_level(old_levels, level as nat, (12 + p) as u32));
                    let (k, i) = choose|k: int, i: int|
                        0 <= k < level && 0 <= i < old_levels[k].len() && #[trigger] level_inner_has(old_levels, k, i, (12 + p) as u32);
                    assert(levels[k] == old_levels[k] && levels[k + 1] == old_levels[k + 1]);
                    assert(level_inner_has(levels, k, i, (12 + p) as u32));
                } else {
                    assert(made_in(next@, faces@.len() as int, (12 + p) as u32));
                    let i = choose|i: int| 0 <= i < faces@.len() && #[trigger] inner_has(next@, i, (12 + p) as u32);
                    assert(level_inner_has(levels, level as int, i, (12 + p) as u32));
                }
            }
            fresh = (12 + p_start.len()) as int;
        }
        faces = next;
        level = level + 1;
    }
    assert(icosphere_levels(levels, parents@, faces@, subdivisions as nat));
    (parents, faces)
}

/// One midpoint lookup inside a subdivision level, with the level's
/// bookkeeping: the level started with `start` parents, and every vertex on
/// the level's faces is below `12 + start`, with two of them at least `fresh`.
fn midpoint_step(
    parents: &mut Vec<(u32, u32)>,
    cache: &mut HashMap<u64, u32>,
    a: u32,
    b: u32,
    Ghost(start): Ghost<nat>,
    Ghost(fresh): Ghost<int>,
) -> (v: u32)
    requires
        a < 12 + start,
        b < 12 + start,
        a >= fresh || b >= fresh,
        start <= old(parents)@.len(),
        12 + old(parents)@.len() < u32::MAX,
        parents_ordered(old(parents)@),
        parents_distinct(old(parents)@),
        forall|k: int| 0 <= k < start ==> (#[trigger] old(parents)@[k]).1 < fresh,
        forall|k: int| start <= k < old(parents)@.len() ==> fresh <= (#[trigger] old(parents)@[k]).1 < 12 + start,
        forall|k: int| start <= k < old(parents)@.len() ==> old(cache)@.contains_key(
            edge_key((#[trigger] old(parents)@[k]).0, old(parents)@[k].1),
        ) && old(cache)@[edge_key(old(parents)@[k].0, old(parents)@[k].1)] == 12 + k,
        forall|key: u64| #[trigger] old(cache)@.contains_key(key) ==> 12 + start <= old(cache)@[key] < 12 + old(parents)@.len()
            && edge_key(old(parents)@[old(cache)@[key] - 12].0, old(parents)@[old(cache)@[key] - 12].1) == key,
    ensures
        12 + start <= v < 12 + final(parents)@.len(),
        final(parents)@.len() <= old(parents)@.len() + 1,
        old(parents)@.is_prefix_of(final(parents)@),
        parents_ordered(final(parents)@),
        parents_distinct(final(parents)@),
        forall|k: int| 0 <= k < start ==> (#[trigger] final(parents)@[k]).1 < fresh,
        forall|k: int| start <= k < final(parents)@.len() ==> fresh <= (#[trigger] final(parents)@[k]).1 < 12 + start,
        forall|k: int| start <= k < final(parents)@.len() ==> final(cache)@.contains_key(
            edge_key((#[trigger] final(parents)@[k]).0, final(parents)@[k].1),
        ) && final(cache)@[edge_key(final(parents)@[k].0, final(parents)@[k].1)] == 12 + k,
        forall|key: u64| #[trigger] final(cache)@.contains_key(key) ==> 12 + start <= final(cache)@[key] < 12 + final(parents)@.len()
            && edge_key(final(parents)@[final(cache)@[key] - 12].0, final(parents)@[final(cache)@[key] - 12].1) == key,
        forall|k: int| 0 <= k < old(parents)@.len() ==> final(parents)@[k] == old(parents)@[k],
        names_midpoint(final(parents)@, v, a, b),
        final(parents)@.len() > old(parents)@.len() ==> v == 12 + old(parents)@.len(),
        final(parents)@.len() > old(parents)@.len() ==> forall|k: int| start <= k < old(parents)@.len() ==> old(parents)@[k] != edge(a, b),
{
    let ghost p0 = parents@;
    let ghost c0 = cache@;
    let v = midpoint(parents, cache, a, b);
    proof {
        let e = edge(a, b);
        let key = edge_key(e.0, e.1);
        if c0.contains_key(key) {
            let q = p0[v - 12];
            assert(q.0 <= q.1);
            lemma_edge_key_injective(q.0, q.1, e.0, e.1);
        } else {
            assert forall|k: int| start <= k < p0.len() implies p0[k] != edge(a, b) by {
                assert(c0.contains_key(edge_key(p0[k].0, p0[k].1)));
            }
            assert forall|k: u64| #[trigger] cache@.contains_key(k) implies 12 + start <= cache@[k] < 12 + parents@.len()
                && edge_key(parents@[cache@[k] - 12].0, parents@[cache@[k] - 12].1) == k by {
                if k != key {
                    assert(c0.contains_key(k));
                    assert(parents@[cache@[k] - 12] == p0[c0[k] - 12]);
                }
            }
            let n = p0.len() as int;
            assert forall|j: int, k: int| 0 <= j < k < parents@.len() implies parents@[j] != parents@[k] by {
                if k == n {
                    if j >= start {
                        assert(c0.contains_key(edge_key(p0[j].0, p0[j].1)));
                    } else {
                        assert(p0[j].1 < fresh);
                    }
                }
            }
            assert forall|k: int| start <= k < parents@.len() implies cache@.contains_key(
                edge_key((#[trigger] parents@[k]).0, parents@[k].1),
            ) && cache@[edge_key(parents@[k].0, parents@[k].1)] == 12 + k by {
                if k < n {
                    assert(c0.contains_key(edge_key(p0[k].0, p0[k].1)));
                    assert(edge_key(p0[k].0, p0[k].1) != key);
                }
            }
            assert forall|k: int| 0 <= k < parents@.len() implies (#[trigger] parents@[k]).0 <= parents@[k].1 < 12 + k by {
                if k < n {
                    assert(parents@[k] == p0[k]);
                }
            }
        }
    }
    v
}

proof fn lemma_edge_key_injective(a: u32, b: u32, c: u32, d: u32)
    requires
        edge_key(a, b) == edge_key(c, d),
    ensures
        a == c && b == d,
{
    assert(a * 0x1_0000_0000 + b == c * 0x1_0000_0000 + d);
    if a < c {
        assert(a * 0x1_0000_0000 + 0x1_0000_0000 <= c * 0x1_0000_0000) by (nonlinear_arith)
            requires a < c;
    } else if c < a {
        assert(c * 0x1_0000_0000 + 0x1_0000_0000 <= a * 0x1_0000_0000) by (nonlinear_arith)
            requires c < a;
    }
}

proof fn lemma_pow4_monotone(a: nat, b: nat)
    requires
        a <= b,
    ensures
        1 <= pow4(a) <= pow4(b),
    decreases b,
{
    if b > 0 {
        if a <= b - 1 {
            lemma_pow4_monotone(a, (b - 1) as nat);
        }
        lemma_pow4_monotone(0, (b - 1) as nat);
    }
}

/// Triangles of a crystal spike over `sides` rim vertices: vertex 0 is the
/// tip, 1 the base point, `2..2 + sides` the rim. Rim segment `i` gives the
/// tip triangle `(0, a, b)` and the base triangle `(1, b, a)`, with
/// `a = 2 + i` and `b` the next rim vertex (wrapping around).
pub open spec fn spike_triangles(sides: nat) -> Seq<u32> {
    Seq::new(
        6 * sides,
        |j: int| {
            let i = j / 6;
            let a = (2 + i) as u32;
            let b = (2 + (i + 1) % (sides as int)) as u32;
            let r = j % 6;
            if r == 0 {
                0u32
            } else if r == 1 {
                a
            } else if r == 2 {
                b
            } else if r == 3 {
                1u32
            } else if r == 4 {
                b
            } else {
                a
            }
        },
    )
}

pub fn spike_indices(sides: u32) -> (indices: Vec<u32>)
    requires
        sides <= 0x1000_0000,
    ensures
        indices@ == spike_triangles(sides as nat),
{
    let mut indices: Vec<u32> = Vec::new();
    let mut i: u32 = 0;
    while i < sides
        invariant
            i <= sides <= 0x1000_0000,
            indices@.len() == 6 * i,
            forall|j: int| 0 <= j < 6 * i ==> indices@[j] == #[trigger] spike_triangles(sides as nat)[j],
        decreases sides - i,
    {
        let a = 2 + i;
        let b = 2 + (i + 1) % sides;
        indices.push(0);
        indices.push(a);
        indices.push(b);
        indices.push(1);
        indices.push(b);
        indices.push(a);
        proof {
            assert forall|j: int| 0 <= j < 6 * (i + 1) implies indices@[j] == #[trigger] spike_triangles(sides as nat)[j] by {
                if j >= 6 * i {
                    assert(j / 6 == i as int) by (nonlinear_arith)
                        requires 6 * i <= j < 6 * i + 6;
                    assert(j % 6 == j - 6 * i) by (nonlinear_arith)
                        requires 6 * i <= j < 6 * i + 6;
                }
            }
        }
        i = i + 1;
    }
    proof {
        assert(indices@ =~= spike_triangles(sides as nat));
    }
    indices
}

/// Each subdivision level turns every face into four: an icosphere of
/// `s` levels has `20 * 4^s` faces, so `s + 1` levels have four times as many.
pub proof fn lemma_face_count_quadruples(s: nat)
    ensures
        20 * pow4(s + 1) == 4 * (20 * pow4(s)),
        20 * pow4(0) == 20,
{
}

/// How the `i`-th scattered decoration turned out: what it is, which model of
/// its kind it uses, its glow variant (crystals only), and the hash whose
/// other bits set its tilt, spin and size.
#[derive(Clone, Copy, Debug, PartialEq, Eq, Structural)]
pub struct ScatterPick {
    pub kind: DecorationKind,
    pub model: usize,
    pub glow: Option<u32>,
    pub hash: u32,
}

/// The hash that decides the `i`-th scattered decoration of a planet seed.
pub open spec fn scatter_hash(seed: u32, i: u32) -> u32 {
    spec_hash_u32(wrapping_add(seed, wrapping_mul(i, 747796405)))
}

/// A scattered decoration is a crystal when the low byte of its hash is
/// under 38 (about one in seven).
pub open spec fn rolls_crystal(h: u32) -> bool {
    h % 256 < 38
}

/// Pick the `i`-th scattered decoration: crystals and stones each cycle
/// through their own models by index, and crystals cycle through the three
/// glow colours the same way.
pub fn scatter_pick(seed: u32, i: u32, stones: usize, crystals: usize) -> (p: ScatterPick)
    requires
        stones > 0,
        crystals > 0,
    ensures
        p.hash == scatter_hash(seed, i),
        p.kind == (if rolls_crystal(p.hash) { DecorationKind::Crystal } else { DecorationKind::Stone }),
        p.model == (if rolls_crystal(p.hash) { i as int % crystals as int } else { i as int % stones as int }),
        p.glow == (if rolls_crystal(p.hash) { Some((i % 3) as u32) } else { None::<u32> }),
{
    let h = hash_u32(seed.wrapping_add(i.wrapping_mul(747796405)));
    assert((h & 0xFF) == h % 256) by (bit_vector);
    if (h & 0xFF) < 38 {
        ScatterPick { kind: DecorationKind::Crystal, model: (i as usize) % crystals, glow: Some(i % 3), hash: h }
    } else {
        ScatterPick { kind: DecorationKind::Stone, model: (i as usize) % stones, glow: None, hash: h }
    }
}

/// The hash that places the spire on side `side` of guard row `row`.
pub open spec fn spire_hash(seed: u32, row: u32, side: u32) -> u32 {
    spec_hash_u32(seed ^ wrapping_mul(row, 0x9E37_79B9) ^ wrapping_mul(side, 0x85EB_CA6B))
}

/// Pick the spire for one side of a guard row along the road: its hash, and
/// its model, cycling through the spire models by row and side.
pub fn spire_pick(seed: u32, row: u32, side: u32, spires: usize) -> (p: (u32, usize))
    requires
        spires > 0,
    ensures
        p.0 == spire_hash(seed, row, side),
        p.1 == (row as int + side as int) % spires as int,
{
    let h = hash_u32(seed ^ row.wrapping_mul(0x9E37_79B9) ^ side.wrapping_mul(0x85EB_CA6B));
    let m = (row as u64 + side as u64) % (spires as u64);
    (h, m as usize)
}

/// The three families of prop models written for a planet.
#[derive(Clone, Copy, Debug, PartialEq, Eq, Structural)]
pub enum PropFamily {
    Stone,
    Spire,
    Crystal,
}

/// The seed of variant `index` of a prop model family, derived from the
/// planet seed: stones step by 17, spires start at `0x5A11` and step by 43,
/// crystals step by 29 (all wrapping).
pub open spec fn prop_seed(family: PropFamily, seed: u32, index: u32) -> u32 {
    match family {
        PropFamily::Stone => wrapping_add(seed, wrapping_mul(index, 17)),
        PropFamily::Spire => wrapping_add(wrapping_add(seed, 0x5A11), wrapping_mul(index, 43)),
        PropFamily::Crystal => wrapping_add(seed, wrapping_mul(index, 29)),
    }
}

/// Seed for the mesh of variant `index` of a prop model family.
pub fn prop_model_seed(family: PropFamily, seed: u32, index: u32) -> (s: u32)
    ensures
        s == prop_seed(family, seed, index),
{
    match family {
        PropFamily::Stone => seed.wrapping_add(index.wrapping_mul(17)),
        PropFamily::Spire => seed.wrapping_add(0x5A11).wrapping_add(index.wrapping_mul(43)),
        PropFamily::Crystal => seed.wrapping_add(index.wrapping_mul(29)),
    }
}

/// Corner after corner `j` of a triangle, going round.
pub open spec fn nxt(j: int) -> int {
    if j == 2 { 0 } else { j + 1 }
}

/// The directed edge leaving corner `j` of face `i`.
pub open spec fn dedge(f: Seq<[u32; 3]>, i: int, j: int) -> (u32, u32) {
    (f[i][j], f[i][nxt(j)])
}

/// `(i, j)` names a corner of a face of `f`.
pub open spec fn is_slot(f: Seq<[u32; 3]>, i: int, j: int) -> bool {
    0 <= i < f.len() && 0 <= j < 3
}

/// The three corners of `t` are different vertices.
pub open spec fn distinct3(t: [u32; 3]) -> bool {
    t[0] != t[1] && t[1] != t[2] && t[0] != t[2]
}

/// Vertex `v` is a corner of `t`.
pub open spec fn has_corner(t: [u32; 3], v: u32) -> bool {
    t[0] == v || t[1] == v || t[2] == v
}

/// Every corner of `a` is a corner of `b`.
pub open spec fn corners_within(a: [u32; 3], b: [u32; 3]) -> bool {
    has_corner(b, a[0]) && has_corner(b, a[1]) && has_corner(b, a[2])
}

/// `f` is a closed, consistently oriented triangle surface: no degenerate
/// face, every directed edge used by exactly one face, the same edge run the
/// other way by some face, and no two faces on the same three vertices.
pub open spec fn closed_surface(f: Seq<[u32; 3]>) -> bool {
    &&& forall|i: int| 0 <= i < f.len() ==> distinct3(#[trigger] f[i])
    &&& forall|i: int, j: int, i2: int, j2: int|
        is_slot(f, i, j) && is_slot(f, i2, j2) && #[trigger] dedge(f, i, j) == #[trigger] dedge(f, i2, j2)
            ==> i == i2 && j == j2
    &&& forall|i: int, j: int| #[trigger] is_slot(f, i, j) ==> has_reverse(f, dedge(f, i, j))
    &&& forall|i: int, i2: int|
        0 <= i < f.len() && 0 <= i2 < f.len() && i != i2 ==> !corners_within(#[trigger] f[i], #[trigger] f[i2])
}

/// Some face runs the edge `d` backwards.
pub open spec fn has_reverse(f: Seq<[u32; 3]>, d: (u32, u32)) -> bool {
    exists|i: int, j: int| is_slot(f, i, j) && #[trigger] dedge(f, i, j) == (d.1, d.0)
}

/// Directed edge of slot number `s` (face `s / 3`, corner `s % 3`).
pub open spec fn slot_edge(f: Seq<[u32; 3]>, s: int) -> (u32, u32) {
    dedge(f, s / 3, s % 3)
}

/// One of the first `n` slots runs `d`.
pub open spec fn runs_among(f: Seq<[u32; 3]>, d: (u32, u32), n: int) -> bool
    decreases n,
{
    if n <= 0 { false } else { slot_edge(f, n - 1) == d || runs_among(f, d, n - 1) }
}

proof fn lemma_runs_among(f: Seq<[u32; 3]>, d: (u32, u32), n: int)
    requires
        runs_among(f, d, n),
        n <= 3 * f.len(),
    ensures
        exists|i: int, j: int| is_slot(f, i, j) && #[trigger] dedge(f, i, j) == d,
    decreases n,
{
    if slot_edge(f, n - 1) == d {
        let s = n - 1;
        assert(is_slot(f, s / 3, s % 3));
        assert(dedge(f, s / 3, s % 3) == d);
    } else {
        lemma_runs_among(f, d, n - 1);
    }
}


/// Face and corner of the icosahedron that run the directed edge `a`–`b`.
spec fn icosa_slot_of(a: u32, b: u32) -> (int, int) {
    if a == 0 && b == 11 {
        (0, 0)
    } else if a == 11 && b == 5 {
        (0, 1)
    } else if a == 5 && b == 0 {
        (0, 2)
    } else if a == 0 && b == 5 {
        (1, 0)
    } else if a == 5 && b == 1 {
        (1, 1)
    } else if a == 1 && b == 0 {
        (1, 2)
    } else if a == 0 && b == 1 {
        (2, 0)
    } else if a == 1 && b == 7 {
        (2, 1)
    } else if a == 7 && b == 0 {
        (2, 2)
    } else if a == 0 && b == 7 {
        (3, 0)
    } else if a == 7 && b == 10 {
        (3, 1)
    } else if a == 10 && b == 0 {
        (3, 2)
    } else if a == 0 && b == 10 {
        (4, 0)
    } else if a == 10 && b == 11 {
        (4, 1)
    } else if a == 11 && b == 0 {
        (4, 2)
    } else if a == 1 && b == 5 {
        (5, 0)
    } else if a == 5 && b == 9 {
        (5, 1)
    } else if a == 9 && b == 1 {
        (5, 2)
    } else if a == 5 && b == 11 {
        (6, 0)
    } else if a == 11 && b == 4 {
        (6, 1)
    } else if a == 4 && b == 5 {
        (6, 2)
    } else if a == 11 && b == 10 {
        (7, 0)
    } else if a == 10 && b == 2 {
        (7, 1)
    } else if a == 2 && b == 11 {
        (7, 2)
    } else if a == 10 && b == 7 {
        (8, 0)
    } else if a == 7 && b == 6 {
        (8, 1)
    } else if a == 6 && b == 10 {
        (8, 2)
    } else if a == 7 && b == 1 {
        (9, 0)
    } else if a == 1 && b == 8 {
        (9, 1)
    } else if a == 8 && b == 7 {
        (9, 2)
    } else if a == 3 && b == 9 {
        (10, 0)
    } else if a == 9 && b == 4 {
        (10, 1)
    } else if a == 4 && b == 3 {
        (10, 2)
    } else if a == 3 && b == 4 {
        (11, 0)
    } else if a == 4 && b == 2 {
        (11, 1)
    } else if a == 2 && b == 3 {
        (11, 2)
    } else if a == 3 && b == 2 {
        (12, 0)
    } else if a == 2 && b == 6 {
        (12, 1)
    } else if a == 6 && b == 3 {
        (12, 2)
    } else if a == 3 && b == 6 {
        (13, 0)
    } else if a == 6 && b == 8 {
        (13, 1)
    } else if a == 8 && b == 3 {
        (13, 2)
    } else if a == 3 && b == 8 {
        (14, 0)
    } else if a == 8 && b == 9 {
        (14, 1)
    } else if a == 9 && b == 3 {
        (14, 2)
    } else if a == 4 && b == 9 {
        (15, 0)
    } else if a == 9 && b == 5 {
        (15, 1)
    } else if a == 5 && b == 4 {
        (15, 2)
    } else if a == 2 && b == 4 {
        (16, 0)
    } else if a == 4 && b == 11 {
        (16, 1)
    } else if a == 11 && b == 2 {
        (16, 2)
    } else if a == 6 && b == 2 {
        (17, 0)
    } else if a == 2 && b == 10 {
        (17, 1)
    } else if a == 10 && b == 6 {
        (17, 2)
    } else if a == 8 && b == 6 {
        (18, 0)
    } else if a == 6 && b == 7 {
        (18, 1)
    } else if a == 7 && b == 8 {
        (18, 2)
    } else if a == 9 && b == 8 {
        (19, 0)
    } else if a == 8 && b == 1 {
        (19, 1)
    } else if a == 1 && b == 9 {
        (19, 2)
    } else {
        (-1, -1)
    }
}

/// Face of the icosahedron on the vertices `lo < mid < hi`.
spec fn icosa_face_of(lo: u32, mid: u32, hi: u32) -> int {
    if lo == 0 && mid == 5 && hi == 11 {
        0
    } else if lo == 0 && mid == 1 && hi == 5 {
        1
    } else if lo == 0 && mid == 1 && hi == 7 {
        2
    } else if lo == 0 && mid == 7 && hi == 10 {
        3
    } else if lo == 0 && mid == 10 && hi == 11 {
        4
    } else if lo == 1 && mid == 5 && hi == 9 {
        5
    } else if lo == 4 && mid == 5 && hi == 11 {
        6
    } else if lo == 2 && mid == 10 && hi == 11 {
        7
    } else if lo == 6 && mid == 7 && hi == 10 {
        8
    } else if lo == 1 && mid == 7 && hi == 8 {
        9
    } else if lo == 3 && mid == 4 && hi == 9 {
        10
    } else if lo == 2 && mid == 3 && hi == 4 {
        11
    } else if lo == 2 && mid == 3 && hi == 6 {
        12
    } else if lo == 3 && mid == 6 && hi == 8 {
        13
    } else if lo == 3 && mid == 8 && hi == 9 {
        14
    } else if lo == 4 && mid == 5 && hi == 9 {
        15
    } else if lo == 2 && mid == 4 && hi == 11 {
        16
    } else if lo == 2 && mid == 6 && hi == 10 {
        17
    } else if lo == 6 && mid == 7 && hi == 8 {
        18
    } else if lo == 1 && mid == 8 && hi == 9 {
        19
    } else {
        -1
    }
}

/// Corners of a triangle with distinct corners, smallest first.
pub open spec fn sorted3(t: [u32; 3]) -> (u32, u32, u32) {
    let (a, b, c) = (t[0], t[1], t[2]);
    if a < b && b < c {
        (a, b, c)
    } else if a < c && c < b {
        (a, c, b)
    } else if b < a && a < c {
        (b, a, c)
    } else if b < c && c < a {
        (b, c, a)
    } else if c < a && a < b {
        (c, a, b)
    } else {
        (c, b, a)
    }
}

proof fn lemma_same_corners_sort_alike(a: [u32; 3], b: [u32; 3])
    requires
        distinct3(a),
        distinct3(b),
        corners_within(a, b),
    ensures
        sorted3(a) == sorted3(b),
{
}

proof fn lemma_icosa_face(i: int)
    requires
        0 <= i < 20,
    ensures
        distinct3(icosahedron()[i]),
        icosa_face_of(sorted3(icosahedron()[i]).0, sorted3(icosahedron()[i]).1, sorted3(icosahedron()[i]).2) == i,
        forall|j: int| 0 <= j < 3 ==> #[trigger] icosa_slot_of(dedge(icosahedron(), i, j).0, dedge(icosahedron(), i, j).1) == (i, j),
        forall|j: int| 0 <= j < 3 ==> ({
            let r = icosa_slot_of(#[trigger] dedge(icosahedron(), i, j).1, dedge(icosahedron(), i, j).0);
            is_slot(icosahedron(), r.0, r.1) && dedge(icosahedron(), r.0, r.1) == (dedge(icosahedron(), i, j).1, dedge(icosahedron(), i, j).0)
        }),
{
    let f = icosahedron();
    if i == 0 {
        assert(f[0] == icosahedron()[0]);
    } else if i == 1 {
        assert(f[1] == icosahedron()[1]);
    } else if i == 2 {
        assert(f[2] == icosahedron()[2]);
    } else if i == 3 {
        assert(f[3] == icosahedron()[3]);
    } else if i == 4 {
        assert(f[4] == icosahedron()[4]);
    } else if i == 5 {
        assert(f[5] == icosahedron()[5]);
    } else if i == 6 {
        assert(f[6] == icosahedron()[6]);
    } else if i == 7 {
        assert(f[7] == icosahedron()[7]);
    } else if i == 8 {
        assert(f[8] == icosahedron()[8]);
    } else if i == 9 {
        assert(f[9] == icosahedron()[9]);
    } else if i == 10 {
        assert(f[10] == icosahedron()[10]);
    } else if i == 11 {
        assert(f[11] == icosahedron()[11]);
    } else if i == 12 {
        assert(f[12] == icosahedron()[12]);
    } else if i == 13 {
        assert(f[13] == icosahedron()[13]);
    } else if i == 14 {
        assert(f[14] == icosahedron()[14]);
    } else if i == 15 {
        assert(f[15] == icosahedron()[15]);
    } else if i == 16 {
        assert(f[16] == icosahedron()[16]);
    } else if i == 17 {
        assert(f[17] == icosahedron()[17]);
    } else if i == 18 {
        assert(f[18] == icosahedron()[18]);
    } else if i == 19 {
        assert(f[19] == icosahedron()[19]);
    }
}

/// The icosahedron is a closed surface.
proof fn lemma_icosahedron_closed()
    ensures
        closed_surface(icosahedron()),
{
    let f = icosahedron();
    assert forall|i: int| 0 <= i < f.len() implies distinct3(#[trigger] f[i]) by {
        lemma_icosa_face(i);
    }
    assert forall|i: int, j: int, i2: int, j2: int|
        is_slot(f, i, j) && is_slot(f, i2, j2) && #[trigger] dedge(f, i, j) == #[trigger] dedge(f, i2, j2)
        implies i == i2 && j == j2 by {
        lemma_icosa_face(i);
        lemma_icosa_face(i2);
        assert(icosa_slot_of(dedge(f, i, j).0, dedge(f, i, j).1) == (i, j));
        assert(icosa_slot_of(dedge(f, i2, j2).0, dedge(f, i2, j2).1) == (i2, j2));
    }
    assert forall|i: int, j: int| #[trigger] is_slot(f, i, j) implies has_reverse(f, dedge(f, i, j)) by {
        lemma_icosa_face(i);
        let d = dedge(f, i, j);
        let r = icosa_slot_of(d.1, d.0);
        assert(is_slot(f, r.0, r.1) && dedge(f, r.0, r.1) == (d.1, d.0));
    }
    assert forall|i: int, i2: int|
        0 <= i < f.len() && 0 <= i2 < f.len() && i != i2 implies !corners_within(#[trigger] f[i], #[trigger] f[i2]) by {
        lemma_icosa_face(i);
        lemma_icosa_face(i2);
        if corners_within(f[i], f[i2]) {
            lemma_same_corners_sort_alike(f[i], f[i2]);
        }
    }
}


/// Corner before corner `j` of a triangle, going round.
pub open spec fn prv(j: int) -> int {
    if j == 0 { 2 } else { j - 1 }
}

/// Midpoint vertex that split the edge leaving corner `c` of face `i`.
pub open spec fn mid(next: Seq<[u32; 3]>, i: int, c: int) -> u32 {
    next[4 * i + 3][c]
}

/// The undirected edge of a directed one.
pub open spec fn undirected(d: (u32, u32)) -> (u32, u32) {
    edge(d.0, d.1)
}

/// What a split leaves, corner by corner, in terms of the old face and its
/// three edge midpoints.
proof fn lemma_split_shape(prev: Seq<[u32; 3]>, next: Seq<[u32; 3]>, parents: Seq<(u32, u32)>, i: int, c: int)
    requires
        0 <= i < prev.len(),
        0 <= c < 3,
        splits(prev[i], next, i, parents),
    ensures
        next[4 * i + c][0] == prev[i][c],
        next[4 * i + c][1] == mid(next, i, c),
        next[4 * i + c][2] == mid(next, i, prv(c)),
        names_midpoint(parents, mid(next, i, c), prev[i][c], prev[i][nxt(c)]),
        12 <= mid(next, i, c) < 12 + parents.len(),
        parents[mid(next, i, c) - 12] == undirected(dedge(prev, i, c)),
{
}

/// Two midpoint vertices are the same exactly when they split the same edge.
proof fn lemma_mid_same(parents: Seq<(u32, u32)>, m: u32, x: u32, y: u32, m2: u32, x2: u32, y2: u32)
    requires
        parents_distinct(parents),
        names_midpoint(parents, m, x, y),
        names_midpoint(parents, m2, x2, y2),
    ensures
        (m == m2) <==> (edge(x, y) == edge(x2, y2)),
{
    if edge(x, y) == edge(x2, y2) && m != m2 {
        let (j, k) = if m < m2 { (m - 12, m2 - 12) } else { (m2 - 12, m - 12) };
        assert(parents[j] != parents[k]);
    }
}


/// The facts a split level rests on: `prev` is split into `next`, old
/// vertices are below `t` and midpoints at or above it, and no edge is split
/// twice.
pub open spec fn split_level(prev: Seq<[u32; 3]>, next: Seq<[u32; 3]>, parents: Seq<(u32, u32)>, t: int) -> bool {
    &&& subdivides(prev, next, parents)
    &&& parents_distinct(parents)
    &&& faces_within(prev, t as nat)
    &&& 0 <= t
    &&& forall|i: int, c: int| 0 <= i < prev.len() && 0 <= c < 3 ==> #[trigger] mid(next, i, c) >= t
}

/// The directed edge of a corner of the split level, by where it sits.
proof fn lemma_new_slot(prev: Seq<[u32; 3]>, next: Seq<[u32; 3]>, parents: Seq<(u32, u32)>, t: int, n: int, j: int)
    requires
        split_level(prev, next, parents, t),
        is_slot(next, n, j),
    ensures
        0 <= n / 4 < prev.len(),
        0 <= n % 4 < 4,
        n == 4 * (n / 4) + n % 4,
        n % 4 < 3 && j == 0 ==> dedge(next, n, j) == (prev[n / 4][n % 4], mid(next, n / 4, n % 4)),
        n % 4 < 3 && j == 1 ==> dedge(next, n, j) == (mid(next, n / 4, n % 4), mid(next, n / 4, prv(n % 4))),
        n % 4 < 3 && j == 2 ==> dedge(next, n, j) == (mid(next, n / 4, prv(n % 4)), prev[n / 4][n % 4]),
        n % 4 == 3 ==> dedge(next, n, j) == (mid(next, n / 4, j), mid(next, n / 4, nxt(j))),
        prev[n / 4][0] < t && prev[n / 4][1] < t && prev[n / 4][2] < t,
        mid(next, n / 4, 0) >= t && mid(next, n / 4, 1) >= t && mid(next, n / 4, 2) >= t,
{
    let i = n / 4;
    let c = n % 4;
    assert(splits(prev[i], next, i, parents));
    assert(mid(next, i, 0) >= t && mid(next, i, 1) >= t && mid(next, i, 2) >= t);
    assert(prev[i][0] < t);
    if c < 3 {
        lemma_split_shape(prev, next, parents, i, c);
    }
}

/// The three midpoints of a split face are different vertices, and each
/// splits the matching edge of the old face.
proof fn lemma_mids(prev: Seq<[u32; 3]>, next: Seq<[u32; 3]>, parents: Seq<(u32, u32)>, t: int, i: int)
    requires
        split_level(prev, next, parents, t),
        closed_surface(prev),
        0 <= i < prev.len(),
    ensures
        mid(next, i, 0) != mid(next, i, 1),
        mid(next, i, 1) != mid(next, i, 2),
        mid(next, i, 0) != mid(next, i, 2),
        forall|c: int| 0 <= c < 3 ==> names_midpoint(parents, #[trigger] mid(next, i, c), prev[i][c], prev[i][nxt(c)]),
{
    assert(splits(prev[i], next, i, parents));
    assert(distinct3(prev[i]));
    lemma_split_shape(prev, next, parents, i, 0);
    lemma_split_shape(prev, next, parents, i, 1);
    lemma_split_shape(prev, next, parents, i, 2);
    let f = prev[i];
    lemma_mid_same(parents, mid(next, i, 0), f[0], f[1], mid(next, i, 1), f[1], f[2]);
    lemma_mid_same(parents, mid(next, i, 1), f[1], f[2], mid(next, i, 2), f[2], f[0]);
    lemma_mid_same(parents, mid(next, i, 0), f[0], f[1], mid(next, i, 2), f[2], f[0]);
}


/// Which two midpoints of its face (by corner) a new-to-new corner of the
/// split level runs from and to.
pub open spec fn mid_pair(n: int, j: int) -> (int, int) {
    if n % 4 < 3 { (n % 4, prv(n % 4)) } else { (j, nxt(j)) }
}

/// The edge `x`–`y` lies on triangle `g`.
pub open spec fn on_face(g: [u32; 3], x: u32, y: u32) -> bool {
    has_corner(g, x) && has_corner(g, y)
}

proof fn lemma_edge_on_face(f: [u32; 3], a: int, g: [u32; 3], b: int)
    requires
        0 <= a < 3,
        0 <= b < 3,
        edge(f[a], f[nxt(a)]) == edge(g[b], g[nxt(b)]),
    ensures
        on_face(g, f[a], f[nxt(a)]),
{
}

/// Splitting a closed surface gives a closed surface.
proof fn lemma_split_closed(prev: Seq<[u32; 3]>, next: Seq<[u32; 3]>, parents: Seq<(u32, u32)>, t: int)
    requires
        split_level(prev, next, parents, t),
        closed_surface(prev),
    ensures
        closed_surface(next),
{
    assert forall|n: int| 0 <= n < next.len() implies distinct3(#[trigger] next[n]) by {
        lemma_new_slot(prev, next, parents, t, n, 0);
        lemma_new_slot(prev, next, parents, t, n, 1);
        lemma_new_slot(prev, next, parents, t, n, 2);
        lemma_mids(prev, next, parents, t, n / 4);
    }
    assert forall|n: int, j: int, n2: int, j2: int|
        is_slot(next, n, j) && is_slot(next, n2, j2) && #[trigger] dedge(next, n, j) == #[trigger] dedge(next, n2, j2)
        implies n == n2 && j == j2 by {
        lemma_split_p2(prev, next, parents, t, n, j, n2, j2);
    }
    assert forall|n: int, j: int| #[trigger] is_slot(next, n, j) implies has_reverse(next, dedge(next, n, j)) by {
        lemma_split_p3(prev, next, parents, t, n, j);
    }
    assert forall|n: int, n2: int|
        0 <= n < next.len() && 0 <= n2 < next.len() && n != n2 implies !corners_within(#[trigger] next[n], #[trigger] next[n2]) by {
        lemma_split_p4(prev, next, parents, t, n, n2);
    }
}

proof fn lemma_split_p2(prev: Seq<[u32; 3]>, next: Seq<[u32; 3]>, parents: Seq<(u32, u32)>, t: int, n: int, j: int, n2: int, j2: int)
    requires
        split_level(prev, next, parents, t),
        closed_surface(prev),
        is_slot(next, n, j),
        is_slot(next, n2, j2),
        dedge(next, n, j) == dedge(next, n2, j2),
    ensures
        n == n2 && j == j2,
{
    lemma_new_slot(prev, next, parents, t, n, j);
    lemma_new_slot(prev, next, parents, t, n2, j2);
    let (i, c, i2, c2) = (n / 4, n % 4, n2 / 4, n2 % 4);
    lemma_mids(prev, next, parents, t, i);
    lemma_mids(prev, next, parents, t, i2);
    let f = prev[i];
    let g = prev[i2];
    assert(distinct3(f) && distinct3(g));
    let (x, y) = dedge(next, n, j);
    if x < t {
        // Old corner to the midpoint of the edge leaving it.
        assert(c < 3 && j == 0 && c2 < 3 && j2 == 0);
        lemma_mid_same(parents, mid(next, i, c), f[c], f[nxt(c)], mid(next, i2, c2), g[c2], g[nxt(c2)]);
        assert(dedge(prev, i, c) == dedge(prev, i2, c2));
        assert(is_slot(prev, i, c) && is_slot(prev, i2, c2));
    } else if y < t {
        // Midpoint of the edge arriving at an old corner, to that corner.
        assert(c < 3 && j == 2 && c2 < 3 && j2 == 2);
        let (p, p2) = (prv(c), prv(c2));
        assert(nxt(p) == c && nxt(p2) == c2);
        lemma_mid_same(parents, mid(next, i, p), f[p], f[nxt(p)], mid(next, i2, p2), g[p2], g[nxt(p2)]);
        assert(dedge(prev, i, p) == dedge(prev, i2, p2));
        assert(is_slot(prev, i, p) && is_slot(prev, i2, p2));
    } else {
        // Midpoint to midpoint.
        let (a, b) = mid_pair(n, j);
        let (a2, b2) = mid_pair(n2, j2);
        assert(x == mid(next, i, a) && y == mid(next, i, b));
        assert(x == mid(next, i2, a2) && y == mid(next, i2, b2));
        assert(0 <= a < 3 && 0 <= b < 3 && a != b);
        assert(0 <= a2 < 3 && 0 <= b2 < 3);
        if i != i2 {
            lemma_mid_same(parents, mid(next, i, a), f[a], f[nxt(a)], mid(next, i2, a2), g[a2], g[nxt(a2)]);
            lemma_mid_same(parents, mid(next, i, b), f[b], f[nxt(b)], mid(next, i2, b2), g[b2], g[nxt(b2)]);
            lemma_edge_on_face(f, a, g, a2);
            lemma_edge_on_face(f, b, g, b2);
            assert(corners_within(f, g));
            assert(!corners_within(prev[i], prev[i2]));
        } else {
            assert(a == a2 && b == b2);
        }
    }
}

proof fn lemma_split_p3(prev: Seq<[u32; 3]>, next: Seq<[u32; 3]>, parents: Seq<(u32, u32)>, t: int, n: int, j: int)
    requires
        split_level(prev, next, parents, t),
        closed_surface(prev),
        is_slot(next, n, j),
    ensures
        has_reverse(next, dedge(next, n, j)),
{
    lemma_new_slot(prev, next, parents, t, n, j);
    let (i, c) = (n / 4, n % 4);
    lemma_mids(prev, next, parents, t, i);
    let f = prev[i];
    let d = dedge(next, n, j);
    if c < 3 && (j == 0 || j == 2) {
        // The neighbour across the old edge holds the other half.
        let o = if j == 0 { c } else { prv(c) };
        assert(is_slot(prev, i, o));
        assert(has_reverse(prev, dedge(prev, i, o)));
        let (i2, o2) = choose|i2: int, o2: int| is_slot(prev, i2, o2) && #[trigger] dedge(prev, i2, o2) == (dedge(prev, i, o).1, dedge(prev, i, o).0);
        lemma_mids(prev, next, parents, t, i2);
        let g = prev[i2];
        lemma_mid_same(parents, mid(next, i, o), f[o], f[nxt(o)], mid(next, i2, o2), g[o2], g[nxt(o2)]);
        if j == 0 {
            // (f[c], m) is reversed by (m, g[nxt(o2)]) at face 4*i2 + nxt(o2), corner 2.
            let n2 = 4 * i2 + nxt(o2);
            lemma_new_slot(prev, next, parents, t, n2, 2);
            assert(n2 / 4 == i2 && n2 % 4 == nxt(o2));
            assert(prv(nxt(o2)) == o2);
            assert(is_slot(next, n2, 2) && dedge(next, n2, 2) == (d.1, d.0));
        } else {
            // (m, f[c]) is reversed by (g[o2], m) at face 4*i2 + o2, corner 0.
            let n2 = 4 * i2 + o2;
            lemma_new_slot(prev, next, parents, t, n2, 0);
            assert(n2 / 4 == i2 && n2 % 4 == o2);
            assert(nxt(o) == c);
            assert(is_slot(next, n2, 0) && dedge(next, n2, 0) == (d.1, d.0));
        }
    } else if c < 3 {
        // (m_c, m_prv) is reversed inside the inner face.
        let n2 = 4 * i + 3;
        let j2 = prv(c);
        lemma_new_slot(prev, next, parents, t, n2, j2);
        assert(n2 / 4 == i && n2 % 4 == 3);
        assert(nxt(prv(c)) == c);
        assert(is_slot(next, n2, j2) && dedge(next, n2, j2) == (d.1, d.0));
    } else {
        // (m_j, m_nxt) of the inner face is reversed by the corner face at nxt(j).
        let n2 = 4 * i + nxt(j);
        lemma_new_slot(prev, next, parents, t, n2, 1);
        assert(n2 / 4 == i && n2 % 4 == nxt(j));
        assert(prv(nxt(j)) == j);
        assert(is_slot(next, n2, 1) && dedge(next, n2, 1) == (d.1, d.0));
    }
}

proof fn lemma_split_p4(prev: Seq<[u32; 3]>, next: Seq<[u32; 3]>, parents: Seq<(u32, u32)>, t: int, n: int, n2: int)
    requires
        split_level(prev, next, parents, t),
        closed_surface(prev),
        0 <= n < next.len(),
        0 <= n2 < next.len(),
        n != n2,
    ensures
        !corners_within(next[n], next[n2]),
{
    lemma_new_slot(prev, next, parents, t, n, 0);
    lemma_new_slot(prev, next, parents, t, n, 1);
    lemma_new_slot(prev, next, parents, t, n, 2);
    lemma_new_slot(prev, next, parents, t, n2, 0);
    lemma_new_slot(prev, next, parents, t, n2, 1);
    lemma_new_slot(prev, next, parents, t, n2, 2);
    let (i, c, i2, c2) = (n / 4, n % 4, n2 / 4, n2 % 4);
    lemma_mids(prev, next, parents, t, i);
    lemma_mids(prev, next, parents, t, i2);
    let f = prev[i];
    let g = prev[i2];
    if corners_within(next[n], next[n2]) {
        // Both faces hold the same two (corner face) or three (inner face)
        // midpoints, so the old faces share two edges, hence all corners.
        let (a, b) = if c < 3 { (c, prv(c)) } else { (0, 1) };
        assert(mid(next, i, a) != mid(next, i, b));
        assert(has_corner(next[n2], mid(next, i, a)) && has_corner(next[n2], mid(next, i, b)));
        let a2 = if c2 < 3 { if mid(next, i, a) == mid(next, i2, c2) { c2 } else { prv(c2) } } else {
            if mid(next, i, a) == mid(next, i2, 0) { 0 } else if mid(next, i, a) == mid(next, i2, 1) { 1 } else { 2 } };
        let b2 = if c2 < 3 { if mid(next, i, b) == mid(next, i2, c2) { c2 } else { prv(c2) } } else {
            if mid(next, i, b) == mid(next, i2, 0) { 0 } else if mid(next, i, b) == mid(next, i2, 1) { 1 } else { 2 } };
        assert(mid(next, i, a) == mid(next, i2, a2));
        assert(mid(next, i, b) == mid(next, i2, b2));
        lemma_mid_same(parents, mid(next, i, a), f[a], f[nxt(a)], mid(next, i2, a2), g[a2], g[nxt(a2)]);
        lemma_mid_same(parents, mid(next, i, b), f[b], f[nxt(b)], mid(next, i2, b2), g[b2], g[nxt(b2)]);
        lemma_edge_on_face(f, a, g, a2);
        lemma_edge_on_face(f, b, g, b2);
        assert(distinct3(f));
        assert(corners_within(f, g));
        if i != i2 {
            assert(!corners_within(prev[i], prev[i2]));
        } else {
            assert(c != c2);
            assert(distinct3(f));
        }
    }
}


/// Bookkeeping of one subdivision level after its first `pos` corners (in
/// face-major order): the `m` edges split so far, where each was first met
/// (`first`) and where the face running it backwards sits (`back`), the
/// `back` corners not reached yet (`waiting`), and how many corners found
/// their edge already split (`hits`).
pub open spec fn count_inv(
    f: Seq<[u32; 3]>,
    start: int,
    parents: Seq<(u32, u32)>,
    pos: int,
    first: Seq<int>,
    back: Seq<int>,
    waiting: Set<int>,
    hits: int,
) -> bool {
    let m = parents.len() - start;
    &&& 0 <= start <= parents.len()
    &&& 0 <= pos <= 3 * f.len()
    &&& first.len() == m && back.len() == m
    &&& waiting.finite()
    &&& m == hits + waiting.len()
    &&& pos == m + hits
    &&& forall|k: int| 0 <= k < m ==> 0 <= #[trigger] first[k] < pos
        && undirected(slot_edge(f, first[k])) == parents[start + k]
    &&& forall|k: int| 0 <= k < m ==> 0 <= #[trigger] back[k] < 3 * f.len()
        && slot_edge(f, back[k]) == (slot_edge(f, first[k]).1, slot_edge(f, first[k]).0)
    &&& forall|k: int| 0 <= k < m && #[trigger] back[k] >= pos ==> waiting.contains(back[k])
    &&& forall|r: int| #[trigger] waiting.contains(r) ==> pos <= r < 3 * f.len() && exists|k: int| 0 <= k < m && back[k] == r
    &&& forall|q: int| 0 <= q < pos ==> already_split(parents, start, undirected(#[trigger] slot_edge(f, q)))
}

/// The edge `e` is among the edges split from index `start` on.
pub open spec fn already_split(parents: Seq<(u32, u32)>, start: int, e: (u32, u32)) -> bool {
    exists|k: int| start <= k < parents.len() && #[trigger] parents[k] == e
}

proof fn lemma_slot_index(i: int, c: int)
    requires
        0 <= c < 3,
    ensures
        (3 * i + c) / 3 == i,
        (3 * i + c) % 3 == c,
{
    assert((3 * i + c) / 3 == i) by (nonlinear_arith)
        requires 0 <= c < 3;
    assert((3 * i + c) % 3 == c) by (nonlinear_arith)
        requires 0 <= c < 3;
}

/// Slot numbers of a closed surface name different directed edges.
proof fn lemma_slot_edge_injective(f: Seq<[u32; 3]>, s: int, q: int)
    requires
        closed_surface(f),
        0 <= s < 3 * f.len(),
        0 <= q < 3 * f.len(),
        slot_edge(f, s) == slot_edge(f, q),
    ensures
        s == q,
{
    lemma_slot_index(s / 3, s % 3);
    assert(s == 3 * (s / 3) + s % 3);
    assert(q == 3 * (q / 3) + q % 3);
    assert(is_slot(f, s / 3, s % 3) && is_slot(f, q / 3, q % 3));
    assert(dedge(f, s / 3, s % 3) == dedge(f, q / 3, q % 3));
}

/// In-loop bound: at most half the corners (so far and to come) open a new edge.
proof fn lemma_count_bound(
    f: Seq<[u32; 3]>, start: int, parents: Seq<(u32, u32)>, pos: int,
    first: Seq<int>, back: Seq<int>, waiting: Set<int>, hits: int,
)
    requires
        count_inv(f, start, parents, pos, first, back, waiting, hits),
    ensures
        2 * (parents.len() - start) <= 3 * f.len(),
        pos == 3 * f.len() ==> 2 * (parents.len() - start) == 3 * f.len(),
{
    vstd::set_lib::lemma_int_range(pos, (3 * f.len()) as int);
    assert(waiting.subset_of(vstd::set_lib::set_int_range(pos, (3 * f.len()) as int)));
    vstd::set_lib::lemma_len_subset(waiting, vstd::set_lib::set_int_range(pos, (3 * f.len()) as int));
}

/// One corner of the level: the midpoint lookup for its edge either hit an
/// edge split earlier this level (its backward run) or split a new one.
proof fn lemma_count_step(
    f: Seq<[u32; 3]>, start: int, p_old: Seq<(u32, u32)>, p_new: Seq<(u32, u32)>, pos: int,
    first: Seq<int>, back: Seq<int>, waiting: Set<int>, hits: int, v: u32,
) -> (out: (Seq<int>, Seq<int>, Set<int>, int))
    requires
        closed_surface(f),
        count_inv(f, start, p_old, pos, first, back, waiting, hits),
        pos < 3 * f.len(),
        names_midpoint(p_new, v, slot_edge(f, pos).0, slot_edge(f, pos).1),
        12 + start <= v,
        p_old.len() <= p_new.len() <= p_old.len() + 1,
        forall|k: int| 0 <= k < p_old.len() ==> p_new[k] == p_old[k],
        p_new.len() > p_old.len() ==> v == 12 + p_old.len(),
        p_new.len() > p_old.len() ==> forall|k: int| start <= k < p_old.len() ==> p_old[k] != undirected(slot_edge(f, pos)),
    ensures
        count_inv(f, start, p_new, pos + 1, out.0, out.1, out.2, out.3),
{
    let d = slot_edge(f, pos);
    let m = p_old.len() - start;
    lemma_slot_index(pos / 3, pos % 3);
    assert(pos == 3 * (pos / 3) + pos % 3);
    assert(is_slot(f, pos / 3, pos % 3));
    assert(distinct3(f[pos / 3]));
    assert(d.0 != d.1);
    if p_new.len() == p_old.len() {
        // Hit: the edge was split earlier this level, first met at `first[k0]`;
        // this corner runs it backwards, so it is the one `back[k0]` waited for.
        let k0 = v - 12 - start;
        assert(0 <= k0 < m);
        assert(p_new[start + k0] == undirected(d));
        let s0 = first[k0];
        if slot_edge(f, s0) == d {
            lemma_slot_edge_injective(f, s0, pos);
        }
        assert(slot_edge(f, back[k0]) == (d.1, d.0) ==> false) by {
            if slot_edge(f, back[k0]) == (d.1, d.0) {
                assert(slot_edge(f, s0) == d);
            }
        }
        assert(slot_edge(f, s0) == (d.1, d.0));
        assert(slot_edge(f, back[k0]) == d);
        lemma_slot_edge_injective(f, back[k0], pos);
        assert(waiting.contains(pos));
        let w2 = waiting.remove(pos);
        assert forall|k: int| 0 <= k < m && #[trigger] back[k] >= pos + 1 implies w2.contains(back[k]) by {}
        assert forall|r: int| #[trigger] w2.contains(r) implies pos + 1 <= r < 3 * f.len() && exists|k: int| 0 <= k < m && back[k] == r by {
            assert(waiting.contains(r));
        }
        assert forall|q: int| 0 <= q < pos + 1 implies already_split(p_new, start, undirected(#[trigger] slot_edge(f, q))) by {
            if q == pos {
                assert(p_new[start + k0] == undirected(slot_edge(f, q)));
            } else {
                assert(already_split(p_old, start, undirected(slot_edge(f, q))));
                let k = choose|k: int| start <= k < p_old.len() && #[trigger] p_old[k] == undirected(slot_edge(f, q));
                assert(p_new[k] == p_old[k]);
            }
        }
        assert forall|k: int| 0 <= k < m implies 0 <= #[trigger] first[k] < pos + 1
            && undirected(slot_edge(f, first[k])) == p_new[start + k] by {
            assert(p_new[start + k] == p_old[start + k]);
        }
        (first, back, w2, hits + 1)
    } else {
        // Miss: a new edge, first met here; some face runs it backwards, at a
        // corner not reached yet (else the edge would have been split there).
        assert(p_new[p_old.len() as int] == undirected(d));
        let i = pos / 3;
        let j = pos % 3;
        assert(is_slot(f, i, j));
        assert(has_reverse(f, dedge(f, i, j)));
        let (i2, j2) = choose|i2: int, j2: int| is_slot(f, i2, j2) && #[trigger] dedge(f, i2, j2) == (dedge(f, i, j).1, dedge(f, i, j).0);
        let r = 3 * i2 + j2;
        lemma_slot_index(i2, j2);
        assert(slot_edge(f, r) == (d.1, d.0));
        assert(0 <= r < 3 * f.len()) by (nonlinear_arith)
            requires 0 <= i2 < f.len(), 0 <= j2 < 3, r == 3 * i2 + j2;
        assert(undirected(slot_edge(f, r)) == undirected(d));
        if r < pos {
            assert(already_split(p_old, start, undirected(slot_edge(f, r))));
            let k = choose|k: int| start <= k < p_old.len() && #[trigger] p_old[k] == undirected(slot_edge(f, r));
            assert(p_old[k] != undirected(d));
        }
        assert(r != pos);
        if waiting.contains(r) {
            let k = choose|k: int| 0 <= k < m && back[k] == r;
            assert(undirected(slot_edge(f, first[k])) == undirected(slot_edge(f, r)));
            assert(p_old[start + k] != undirected(d));
        }
        if waiting.contains(pos) {
            let k = choose|k: int| 0 <= k < m && back[k] == pos;
            assert(undirected(slot_edge(f, first[k])) == undirected(slot_edge(f, pos)));
            assert(p_old[start + k] != undirected(d));
        }
        let f2 = first.push(pos);
        let b2 = back.push(r);
        let w2 = waiting.insert(r);
        assert forall|k: int| 0 <= k < m + 1 implies 0 <= #[trigger] f2[k] < pos + 1
            && undirected(slot_edge(f, f2[k])) == p_new[start + k] by {
            if k < m {
                assert(p_new[start + k] == p_old[start + k]);
            }
        }
        assert forall|k: int| 0 <= k < m + 1 implies 0 <= #[trigger] b2[k] < 3 * f.len()
            && slot_edge(f, b2[k]) == (slot_edge(f, f2[k]).1, slot_edge(f, f2[k]).0) by {}
        assert forall|k: int| 0 <= k < m + 1 && #[trigger] b2[k] >= pos + 1 implies w2.contains(b2[k]) by {}
        assert forall|x: int| #[trigger] w2.contains(x) implies pos + 1 <= x < 3 * f.len() && exists|k: int| 0 <= k < m + 1 && b2[k] == x by {
            if x == r {
                assert(b2[m] == r);
            } else {
                assert(waiting.contains(x));
                let k = choose|k: int| 0 <= k < m && back[k] == x;
                assert(b2[k] == x);
            }
        }
        assert forall|q: int| 0 <= q < pos + 1 implies already_split(p_new, start, undirected(#[trigger] slot_edge(f, q))) by {
            if q == pos {
                assert(p_new[start + m] == undirected(slot_edge(f, q)));
            } else {
                assert(already_split(p_old, start, undirected(slot_edge(f, q))));
                let k = choose|k: int| start <= k < p_old.len() && #[trigger] p_old[k] == undirected(slot_edge(f, q));
                assert(p_new[k] == p_old[k]);
            }
        }
        (f2, b2, w2, hits)
    }
}

} // verus!
