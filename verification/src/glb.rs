//! Binary glTF (GLB) container layout.
//!
//! The library lays out the binary chunk (one aligned buffer view per vertex
//! attribute and per index list, meshes in order) and frames the JSON and
//! binary chunks behind the GLB header. Vertex attributes arrive already
//! encoded as little-endian bytes; the JSON document arrives as bytes.
use vstd::prelude::*;

verus! {

pub const GLB_MAGIC: u32 = 0x4654_6C67;
pub const GLB_VERSION: u32 = 2;
pub const CHUNK_JSON: u32 = 0x4E4F_534A;
pub const CHUNK_BIN: u32 = 0x004E_4942;

/// Smallest multiple of four that is at least `n`.
pub open spec fn spec_pad4(n: int) -> int {
    ((n + 3) / 4) * 4
}

/// The four little-endian bytes of `v`.
pub open spec fn le32(v: u32) -> Seq<u8> {
    seq![
        (v % 256) as u8,
        ((v / 256) % 256) as u8,
        ((v / 65536) % 256) as u8,
        (v / 16777216) as u8,
    ]
}

/// Little-endian bytes of each value, in order.
pub open spec fn le32_all(values: Seq<u32>) -> Seq<u8>
    decreases values.len(),
{
    if values.len() == 0 {
        Seq::empty()
    } else {
        le32_all(values.drop_last()) + le32(values.last())
    }
}

/// `n` zero bytes.
pub open spec fn zeros(n: int) -> Seq<u8> {
    Seq::new(n as nat, |i: int| 0u8)
}

/// `buf` followed by `bytes`, then zero-padded to a multiple of four.
pub open spec fn append_aligned(buf: Seq<u8>, bytes: Seq<u8>) -> Seq<u8> {
    let n: int = (buf.len() + bytes.len()) as int;
    buf + bytes + zeros(spec_pad4(n) - n)
}

pub fn pad4(n: usize) -> (r: usize)
    requires
        n <= usize::MAX - 3,
    ensures
        r == spec_pad4(n as int),
{
    let q: usize = n / 4 + if n % 4 != 0 { 1 } else { 0 };
    proof {
        assert(q == (n + 3) / 4) by (nonlinear_arith)
            requires q == n / 4 + if n % 4 != 0 { 1int } else { 0int };
        assert(q * 4 <= n + 3) by (nonlinear_arith)
            requires q == (n + 3) / 4, n >= 0;
    }
    q * 4
}

pub fn write_u32_le(out: &mut Vec<u8>, value: u32)
    ensures
        final(out)@ == old(out)@ + le32(value),
{
    out.push((value % 256) as u8);
    out.push(((value / 256) % 256) as u8);
    out.push(((value / 65536) % 256) as u8);
    out.push((value / 16777216) as u8);
    proof {
        assert(out@ =~= old(out)@ + le32(value));
    }
}

/// One triangle mesh whose vertex attributes are already little-endian bytes:
/// three 4-byte floats per position and normal, two per texture coordinate.
pub struct MeshBytes {
    pub positions: Vec<u8>,
    pub normals: Vec<u8>,
    pub tex_coords: Vec<u8>,
    pub indices: Vec<u32>,
}

impl MeshBytes {
    /// Byte lengths match whole vertices, every attribute has one entry per
    /// vertex, and the index list is a non-empty list of triangles.
    pub open spec fn well_formed(&self) -> bool {
        &&& self.positions@.len() % 12 == 0
        &&& self.normals@.len() == self.positions@.len()
        &&& self.tex_coords@.len() * 3 == self.positions@.len() * 2
        &&& self.indices@.len() > 0
        &&& self.indices@.len() % 3 == 0
    }
}

/// Where one buffer view sits in the binary chunk (length excludes padding).
#[derive(Clone, Copy, Debug, PartialEq, Eq, Structural)]
pub struct BufferView {
    pub offset: usize,
    pub length: usize,
}

/// The four buffer views of one mesh and its largest vertex index.
#[derive(Clone, Copy, Debug, PartialEq, Eq, Structural)]
pub struct MeshLayout {
    pub positions: BufferView,
    pub normals: BufferView,
    pub tex_coords: BufferView,
    pub indices: BufferView,
    pub index_max: u32,
}

/// Largest value in a non-empty list.
pub open spec fn seq_max(values: Seq<u32>) -> u32
    decreases values.len(),
{
    if values.len() <= 1 {
        values[0]
    } else {
        let m = seq_max(values.drop_last());
        if values.last() > m { values.last() } else { m }
    }
}

/// Some value of `values` is `m`.
pub open spec fn attains(values: Seq<u32>, m: u32) -> bool {
    exists|k: int| 0 <= k < values.len() && values[k] == m
}

/// The largest value of a non-empty list is at least every value of it, and
/// is one of them.
pub proof fn lemma_seq_max_is_largest(values: Seq<u32>)
    requires
        values.len() > 0,
    ensures
        forall|k: int| 0 <= k < values.len() ==> values[k] <= seq_max(values),
        attains(values, seq_max(values)),
    decreases values.len(),
{
    if values.len() > 1 {
        let init = values.drop_last();
        lemma_seq_max_is_largest(init);
        assert forall|k: int| 0 <= k < values.len() implies values[k] <= seq_max(values) by {
            if k < init.len() {
                assert(values[k] == init[k]);
            }
        }
        if values.last() <= seq_max(init) {
            let k = choose|k: int| 0 <= k < init.len() && init[k] == seq_max(init);
            assert(values[k] == seq_max(values));
        } else {
            assert(values[values.len() - 1] == seq_max(values));
        }
    } else {
        assert(values[0] == seq_max(values));
    }
}

/// The binary chunk after appending one mesh to `buf`.
pub open spec fn mesh_append(buf: Seq<u8>, m: MeshBytes) -> Seq<u8> {
    append_aligned(
        append_aligned(
            append_aligned(append_aligned(buf, m.positions@), m.normals@),
            m.tex_coords@,
        ),
        le32_all(m.indices@),
    )
}

/// The binary chunk holding `meshes` in order.
pub open spec fn bin_of(meshes: Seq<MeshBytes>) -> Seq<u8>
    decreases meshes.len(),
{
    if meshes.len() == 0 {
        Seq::empty()
    } else {
        mesh_append(bin_of(meshes.drop_last()), meshes.last())
    }
}

/// Layout of mesh `m` appended to a binary chunk that holds `buf`.
pub open spec fn layout_after(buf: Seq<u8>, m: MeshBytes) -> MeshLayout {
    let b1 = append_aligned(buf, m.positions@);
    let b2 = append_aligned(b1, m.normals@);
    let b3 = append_aligned(b2, m.tex_coords@);
    MeshLayout {
        positions: BufferView { offset: buf.len() as usize, length: m.positions@.len() as usize },
        normals: BufferView { offset: b1.len() as usize, length: m.normals@.len() as usize },
        tex_coords: BufferView { offset: b2.len() as usize, length: m.tex_coords@.len() as usize },
        indices: BufferView { offset: b3.len() as usize, length: (m.indices@.len() * 4) as usize },
        index_max: seq_max(m.indices@),
    }
}

/// Upper bound on the binary chunk's size: every byte plus three bytes of
/// padding per buffer view.
pub open spec fn size_bound(meshes: Seq<MeshBytes>) -> int
    decreases meshes.len(),
{
    if meshes.len() == 0 {
        0
    } else {
        let m = meshes.last();
        size_bound(meshes.drop_last()) + m.positions@.len() + m.normals@.len()
            + m.tex_coords@.len() + 4 * m.indices@.len() + 12
    }
}

proof fn lemma_le32_all_len(values: Seq<u32>)
    ensures
        le32_all(values).len() == 4 * values.len(),
    decreases values.len(),
{
    if values.len() > 0 {
        lemma_le32_all_len(values.drop_last());
    }
}

proof fn lemma_bin_size(meshes: Seq<MeshBytes>)
    ensures
        bin_of(meshes).len() <= size_bound(meshes),
        0 <= size_bound(meshes),
    decreases meshes.len(),
{
    if meshes.len() > 0 {
        lemma_bin_size(meshes.drop_last());
        lemma_le32_all_len(meshes.last().indices@);
    }
}

proof fn lemma_size_bound_prefix(meshes: Seq<MeshBytes>, k: int)
    requires
        0 <= k <= meshes.len(),
    ensures
        size_bound(meshes.take(k)) <= size_bound(meshes),
    decreases meshes.len() - k,
{
    if k < meshes.len() {
        lemma_size_bound_prefix(meshes, k + 1);
        assert(meshes.take(k + 1).drop_last() =~= meshes.take(k));
    } else {
        assert(meshes.take(k) =~= meshes);
    }
}

/// Append `bytes` to `bin`, then zero-pad `bin` to a multiple of four.
/// Returns where `bytes` landed.
fn push_aligned(bin: &mut Vec<u8>, bytes: &[u8]) -> (view: BufferView)
    requires
        old(bin)@.len() + bytes@.len() + 3 <= usize::MAX,
    ensures
        final(bin)@ == append_aligned(old(bin)@, bytes@),
        view == (BufferView { offset: old(bin)@.len() as usize, length: bytes@.len() as usize }),
{
    let offset = bin.len();
    bin.extend_from_slice(bytes);
    let length = bin.len() - offset;
    let target = pad4(bin.len());
    while bin.len() < target
        invariant
            offset + length <= bin@.len(),
            bin@.len() <= target,
            target == spec_pad4(offset + length),
            bin@.subrange(0, (offset + length) as int) == old(bin)@ + bytes@,
            forall|i: int| offset + length <= i < bin@.len() ==> bin@[i] == 0u8,
            offset == old(bin)@.len(),
            length == bytes@.len(),
        decreases target - bin@.len(),
    {
        bin.push(0u8);
    }
    proof {
        assert(bin@ =~= append_aligned(old(bin)@, bytes@));
    }
    BufferView { offset, length }
}

/// Append the little-endian bytes of `indices` to `bin`, zero-padded.
fn push_indices(bin: &mut Vec<u8>, indices: &[u32]) -> (view: BufferView)
    requires
        old(bin)@.len() + 4 * indices@.len() + 3 <= usize::MAX,
    ensures
        final(bin)@ == append_aligned(old(bin)@, le32_all(indices@)),
        view == (BufferView {
            offset: old(bin)@.len() as usize,
            length: (4 * indices@.len()) as usize,
        }),
{
    let offset = bin.len();
    let mut i: usize = 0;
    while i < indices.len()
        invariant
            i <= indices@.len(),
            offset == old(bin)@.len(),
            offset + 4 * indices@.len() + 3 <= usize::MAX,
            bin@ == old(bin)@ + le32_all(indices@.take(i as int)),
            le32_all(indices@.take(i as int)).len() == 4 * i,
        decreases indices@.len() - i,
    {
        proof {
            assert(indices@.take(i + 1).drop_last() =~= indices@.take(i as int));
            lemma_le32_all_len(indices@.take(i + 1));
        }
        write_u32_le(bin, indices[i]);
        proof {
            assert(bin@ =~= old(bin)@ + le32_all(indices@.take(i + 1)));
        }
        i = i + 1;
    }
    proof {
        assert(indices@.take(i as int) =~= indices@);
    }
    let length = bin.len() - offset;
    let target = pad4(bin.len());
    let ghost body = bin@;
    while bin.len() < target
        invariant
            bin@.len() <= target,
            body.len() == offset + length,
            target == spec_pad4(offset + length),
            body.len() <= bin@.len(),
            bin@.subrange(0, body.len() as int) == body,
            forall|j: int| body.len() <= j < bin@.len() ==> bin@[j] == 0u8,
            body == old(bin)@ + le32_all(indices@),
            offset == old(bin)@.len(),
        decreases target - bin@.len(),
    {
        bin.push(0u8);
    }
    proof {
        lemma_le32_all_len(indices@);
        assert(bin@ =~= append_aligned(old(bin)@, le32_all(indices@)));
    }
    BufferView { offset, length }
}

/// Largest value of a non-empty index list.
fn index_max(indices: &[u32]) -> (m: u32)
    requires
        indices@.len() > 0,
    ensures
        m == seq_max(indices@),
{
    let mut m = indices[0];
    let mut i: usize = 1;
    while i < indices.len()
        invariant
            1 <= i <= indices@.len(),
            m == seq_max(indices@.take(i as int)),
        decreases indices@.len() - i,
    {
        proof {
            assert(indices@.take(i + 1).drop_last() =~= indices@.take(i as int));
        }
        if indices[i] > m {
            m = indices[i];
        }
        i = i + 1;
    }
    proof {
        assert(indices@.take(i as int) =~= indices@);
    }
    m
}

/// Lay out the binary chunk for `meshes`: per mesh, positions, normals,
/// texture coordinates and indices, each starting on a 4-byte boundary.
pub fn build_bin(meshes: &[MeshBytes]) -> (out: (Vec<u8>, Vec<MeshLayout>))
    requires
        meshes@.len() > 0,
        forall|i: int| 0 <= i < meshes@.len() ==> (#[trigger] meshes@[i]).well_formed(),
        size_bound(meshes@) + 3 <= usize::MAX,
    ensures
        out.0@ == bin_of(meshes@),
        out.1@.len() == meshes@.len(),
        forall|i: int|
            0 <= i < meshes@.len() ==> out.1@[i] == layout_after(
                bin_of(meshes@.take(i)),
                meshes@[i],
            ),
        forall|i: int, k: int|
            0 <= i < meshes@.len() && 0 <= k < meshes@[i].indices@.len() ==> #[trigger] meshes@[i].indices@[k]
                <= #[trigger] out.1@[i].index_max,
        forall|i: int| 0 <= i < meshes@.len() ==> attains(meshes@[i].indices@, (#[trigger] out.1@[i]).index_max),
{
    let mut bin: Vec<u8> = Vec::new();
    let mut layouts: Vec<MeshLayout> = Vec::new();
    let mut k: usize = 0;
    while k < meshes.len()
        invariant
            k <= meshes@.len(),
            forall|i: int| 0 <= i < meshes@.len() ==> (#[trigger] meshes@[i]).well_formed(),
            size_bound(meshes@) + 3 <= usize::MAX,
            bin@ == bin_of(meshes@.take(k as int)),
            layouts@.len() == k,
            forall|i: int|
                0 <= i < k ==> layouts@[i] == layout_after(bin_of(meshes@.take(i)), meshes@[i]),
        decreases meshes@.len() - k,
    {
        let m = &meshes[k];
        proof {
            lemma_size_bound_prefix(meshes@, k + 1);
            assert(meshes@.take(k + 1).drop_last() =~= meshes@.take(k as int));
            assert(meshes@.take(k + 1).last() == meshes@[k as int]);
            lemma_bin_size(meshes@.take(k as int));
            lemma_le32_all_len(m.indices@);
        }
        let ghost b0 = bin@;
        let pos = push_aligned(&mut bin, m.positions.as_slice());
        let nrm = push_aligned(&mut bin, m.normals.as_slice());
        let uv = push_aligned(&mut bin, m.tex_coords.as_slice());
        let idx = push_indices(&mut bin, m.indices.as_slice());
        let index_max = index_max(m.indices.as_slice());
        let layout = MeshLayout { positions: pos, normals: nrm, tex_coords: uv, indices: idx, index_max };
        proof {
            assert(layout == layout_after(b0, meshes@[k as int]));
            assert(bin@ == bin_of(meshes@.take(k + 1)));
        }
        layouts.push(layout);
        k = k + 1;
    }
    proof {
        assert(meshes@.take(k as int) =~= meshes@);
        assert forall|i: int, j: int| 0 <= i < meshes@.len() && 0 <= j < meshes@[i].indices@.len() implies
            #[trigger] meshes@[i].indices@[j] <= #[trigger] layouts@[i].index_max by {
            assert(meshes@[i].well_formed());
            lemma_seq_max_is_largest(meshes@[i].indices@);
        }
        assert forall|i: int| 0 <= i < meshes@.len() implies attains(meshes@[i].indices@, (#[trigger] layouts@[i]).index_max) by {
            assert(meshes@[i].well_formed());
            lemma_seq_max_is_largest(meshes@[i].indices@);
            assert(layouts@[i].index_max == seq_max(meshes@[i].indices@));
            let w = choose|k: int| 0 <= k < meshes@[i].indices@.len() && meshes@[i].indices@[k] == seq_max(meshes@[i].indices@);
            assert(meshes@[i].indices@[w] == layouts@[i].index_max);
        }
    }
    (bin, layouts)
}

/// `json` padded with spaces to a multiple of four bytes.
pub open spec fn padded_json(json: Seq<u8>) -> Seq<u8> {
    json + Seq::new((spec_pad4(json.len() as int) - json.len()) as nat, |i: int| 0x20u8)
}

/// A GLB file: 12-byte header (magic, version, total length), then the JSON
/// chunk (length, type, space-padded JSON), then the binary chunk (length,
/// type, bytes). Lengths are written as their low 32 bits.
pub open spec fn glb_file(json: Seq<u8>, bin: Seq<u8>) -> Seq<u8> {
    let j = padded_json(json);
    let total = 12 + 8 + j.len() + 8 + bin.len();
    le32(GLB_MAGIC) + le32(GLB_VERSION) + le32(total as u32) + le32(j.len() as u32) + le32(
        CHUNK_JSON,
    ) + j + le32(bin.len() as u32) + le32(CHUNK_BIN) + bin
}

/// Frame a JSON document and a binary chunk as a GLB file.
pub fn frame_glb(json: &[u8], bin: &[u8]) -> (out: Vec<u8>)
    requires
        json@.len() + 3 + 28 + bin@.len() <= usize::MAX,
    ensures
        out@ == glb_file(json@, bin@),
{
    let mut j: Vec<u8> = Vec::new();
    j.extend_from_slice(json);
    let target = pad4(j.len());
    while j.len() % 4 != 0
        invariant
            j@.len() <= target,
            target == spec_pad4(json@.len() as int),
            j@.subrange(0, json@.len() as int) == json@,
            forall|i: int| json@.len() <= i < j@.len() ==> j@[i] == 0x20u8,
            j@.len() >= json@.len(),
            json@.len() + 3 + 28 + bin@.len() <= usize::MAX,
        decreases target - j@.len(),
    {
        proof {
            assert(j@.len() < target) by (nonlinear_arith)
                requires
                    j@.len() % 4 != 0,
                    j@.len() <= target,
                    target == ((json@.len() + 3) / 4) * 4,
                    j@.len() >= json@.len();
        }
        j.push(0x20u8);
    }
    proof {
        assert(j@.len() == target) by (nonlinear_arith)
            requires
                j@.len() % 4 == 0,
                j@.len() <= target,
                target == ((json@.len() + 3) / 4) * 4,
                j@.len() >= json@.len();
        assert(j@ =~= padded_json(json@));
    }
    let total = 12 + 8 + j.len() + 8 + bin.len();
    let mut out: Vec<u8> = Vec::new();
    write_u32_le(&mut out, GLB_MAGIC);
    write_u32_le(&mut out, GLB_VERSION);
    write_u32_le(&mut out, total as u32);
    write_u32_le(&mut out, j.len() as u32);
    write_u32_le(&mut out, CHUNK_JSON);
    out.extend_from_slice(j.as_slice());
    write_u32_le(&mut out, bin.len() as u32);
    write_u32_le(&mut out, CHUNK_BIN);
    out.extend_from_slice(bin);
    proof {
        assert(out@ =~= glb_file(json@, bin@));
    }
    out
}

/// Where mesh `i`'s entries sit in the glTF document's arrays. Each mesh owns
/// four consecutive buffer views and four consecutive accessors, in the order
/// positions, normals, texture coordinates, indices, with accessor `k`
/// reading buffer view `k`; its material, glTF mesh and node all sit at `i`.
#[derive(Clone, Copy, Debug)]
pub struct GltfSlots {
    /// Buffer views (and accessors) of the positions, normals, texture
    /// coordinates and indices.
    pub views: [usize; 4],
    pub material: usize,
    pub node: usize,
}

pub fn gltf_slots(i: usize) -> (s: GltfSlots)
    requires
        4 * i + 3 <= usize::MAX,
    ensures
        forall|k: int| 0 <= k < 4 ==> s.views[k] == 4 * i + k,
        s.material == i,
        s.node == i,
{
    GltfSlots { views: [4 * i, 4 * i + 1, 4 * i + 2, 4 * i + 3], material: i, node: i }
}

/// The node list of the file's one scene: every node, in order.
pub fn scene_nodes(count: usize) -> (nodes: Vec<usize>)
    ensures
        nodes@ == Seq::new(count as nat, |k: int| k as usize),
{
    let mut nodes: Vec<usize> = Vec::new();
    let mut k: usize = 0;
    while k < count
        invariant
            k <= count,
            nodes@ == Seq::new(k as nat, |j: int| j as usize),
        decreases count - k,
    {
        nodes.push(k);
        k = k + 1;
        proof {
            assert(nodes@ =~= Seq::new(k as nat, |j: int| j as usize));
        }
    }
    nodes
}

} // verus!
